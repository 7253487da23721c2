pub mod device;
pub mod process;

use vstd::prelude::*;
use crate::implementation::{ModelProcess, ModelProducer, total_weight};
use crate::modeling::device::Device;
use crate::modeling::process::{ProcessBase, SharedProcess, busy_count};

verus! {

/// A mistake in the wiring of a model, found before it runs.
#[derive(Clone, Copy, Debug, PartialEq, Eq, Structural)]
pub enum ConfigError {
    /// No producer was set.
    NoProducer,
    /// A handle does not name a station of this model.
    UnknownStation,
    /// A station was given itself as a successor.
    SelfSuccessor,
    /// A station was given itself as its failure target.
    SelfFailure,
    /// A successor weight of zero.
    ZeroWeight,
    /// The successor weights of a station would not fit in a `u64`.
    WeightOverflow,
    /// A station has no device.
    NoDevices,
    /// A station cannot be reached from the producer's entry station.
    Unreachable,
}

/// Whether station `p` has an edge, a successor or its failure target, to station `b`.
pub open spec fn links_to(p: ModelProcess, b: int) -> bool {
    ||| (p.failure_view() matches Some(f) && f.id == b)
    ||| exists|k: int| 0 <= k < p.next_view().len() && (#[trigger] p.next_view()[k]).0.id == b
}

/// No edge leaves the set `s`.
pub open spec fn closed_under(st: Seq<ModelProcess>, s: Set<int>) -> bool {
    forall|a: int, b: int|
        #![trigger s.contains(a), links_to(st[a], b)]
        s.contains(a) && 0 <= a < st.len() && links_to(st[a], b) ==> s.contains(b)
}

/// Station `to` can be reached from station `from` along edges: it lies in
/// every edge-closed set that holds `from`.
pub open spec fn reachable(st: Seq<ModelProcess>, from: int, to: int) -> bool {
    forall|s: Set<int>| #[trigger] closed_under(st, s) && s.contains(from) ==> s.contains(to)
}

/// Every edge names a station of `st`, and none is a loop.
pub open spec fn edges_valid(st: Seq<ModelProcess>) -> bool {
    forall|a: int| 0 <= a < st.len() ==> {
        &&& ((#[trigger] st[a]).failure_view() matches Some(f) ==> f.id < st.len() && f.id != a)
        &&& forall|k: int|
            0 <= k < st[a].next_view().len() ==> (#[trigger] st[a].next_view()[k]).0.id < st.len()
                && st[a].next_view()[k].0.id != a
    }
}

/// Number of `true` entries.
pub open spec fn count_true(v: Seq<bool>) -> nat
    decreases v.len(),
{
    if v.len() == 0 {
        0
    } else {
        count_true(v.drop_last()) + if v.last() {
            1nat
        } else {
            0nat
        }
    }
}

proof fn lemma_count_bound(v: Seq<bool>)
    ensures
        count_true(v) <= v.len(),
    decreases v.len(),
{
    if v.len() > 0 {
        lemma_count_bound(v.drop_last());
    }
}

proof fn lemma_count_mono(a: Seq<bool>, b: Seq<bool>)
    requires
        a.len() == b.len(),
        forall|i: int| 0 <= i < a.len() && a[i] ==> b[i],
    ensures
        count_true(a) <= count_true(b),
    decreases a.len(),
{
    if a.len() > 0 {
        lemma_count_mono(a.drop_last(), b.drop_last());
    }
}

proof fn lemma_count_set(v: Seq<bool>, i: int)
    requires
        0 <= i < v.len(),
        !v[i],
    ensures
        count_true(v.update(i, true)) == count_true(v) + 1,
    decreases v.len(),
{
    let u = v.update(i, true);
    if i == v.len() - 1 {
        assert(u.drop_last() =~= v.drop_last());
    } else {
        lemma_count_set(v.drop_last(), i);
        assert(u.drop_last() =~= v.drop_last().update(i, true));
    }
}

proof fn lemma_reach_step(st: Seq<ModelProcess>, from: int, a: int, b: int)
    requires
        reachable(st, from, a),
        0 <= a < st.len(),
        links_to(st[a], b),
    ensures
        reachable(st, from, b),
{
    assert forall|s: Set<int>| #[trigger] closed_under(st, s) && s.contains(from) implies s.contains(b) by {
        assert(s.contains(a));
    }
}

proof fn lemma_reach_self(st: Seq<ModelProcess>, from: int)
    ensures
        reachable(st, from, from),
{
}

/// Depth-first discovery from `id` as a value: the stations seen afterwards,
/// and the stations newly found, in order. An unseen station records its
/// failure target's discoveries first, then itself, then those of each
/// successor in turn. `fuel` bounds the depth.
pub open spec fn discover(st: Seq<ModelProcess>, id: int, vis: Seq<bool>, fuel: nat) -> (Seq<bool>, Seq<usize>)
    decreases fuel, 1nat, 0int,
{
    if !(0 <= id < vis.len()) || vis[id] || fuel == 0 || id >= st.len() {
        (vis, seq![])
    } else {
        let v1 = vis.update(id, true);
        let a = match st[id].failure_view() {
            Some(f) => discover(st, f.id as int, v1, (fuel - 1) as nat),
            None => (v1, seq![]),
        };
        let b = discover_list(st, st[id].next_view(), 0, a.0, (fuel - 1) as nat);
        (b.0, a.1 + seq![id as usize] + b.1)
    }
}

/// Discovery from each of `nexts[k..]` in turn.
pub open spec fn discover_list(
    st: Seq<ModelProcess>,
    nexts: Seq<(SharedProcess, u16)>,
    k: int,
    vis: Seq<bool>,
    fuel: nat,
) -> (Seq<bool>, Seq<usize>)
    decreases fuel, 2nat, nexts.len() - k,
{
    if k < 0 || k >= nexts.len() {
        (vis, seq![])
    } else {
        let a = discover(st, nexts[k].0.id as int, vis, fuel);
        let b = discover_list(st, nexts, k + 1, a.0, fuel);
        (b.0, a.1 + b.1)
    }
}

/// Depth-first discovery from `id`: the failure target first, then the
/// station itself is appended to `order`, then its successors.
fn add_processes(
    st: &Vec<ModelProcess>,
    id: usize,
    visited: &mut Vec<bool>,
    order: &mut Vec<usize>,
    Ghost(entry): Ghost<int>,
    Ghost(fuel): Ghost<nat>,
)
    requires
        fuel >= st@.len() - count_true(old(visited)@),
        edges_valid(st@),
        id < st@.len(),
        old(visited)@.len() == st@.len(),
        reachable(st@, entry, id as int),
        forall|x: int| 0 <= x < st@.len() && old(visited)@[x] ==> reachable(st@, entry, x),
        forall|j: int| 0 <= j < old(order)@.len() ==> (#[trigger] old(order)@[j]) < st@.len() && old(visited)@[old(order)@[j] as int],
        forall|i: int, j: int| 0 <= i < j < old(order)@.len() ==> old(order)@[i] != old(order)@[j],
    ensures
        final(visited)@.len() == st@.len(),
        final(visited)@[id as int],
        forall|x: int| 0 <= x < st@.len() && old(visited)@[x] ==> final(visited)@[x],
        forall|x: int| 0 <= x < st@.len() && final(visited)@[x] ==> reachable(st@, entry, x),
        forall|x: int, b: int|
            #![trigger links_to(st@[x], b)]
            0 <= x < st@.len() && final(visited)@[x] && !old(visited)@[x] && links_to(st@[x], b)
                ==> 0 <= b < st@.len() && final(visited)@[b],
        final(order)@.len() >= old(order)@.len(),
        final(order)@.subrange(0, old(order)@.len() as int) == old(order)@,
        forall|j: int| old(order)@.len() <= j < final(order)@.len() ==> (#[trigger] final(order)@[j]) < st@.len()
            && final(visited)@[final(order)@[j] as int] && !old(visited)@[final(order)@[j] as int],
        forall|x: int| 0 <= x < st@.len() && final(visited)@[x] && !old(visited)@[x] ==> final(order)@.contains(x as usize),
        forall|i: int, j: int| 0 <= i < j < final(order)@.len() ==> final(order)@[i] != final(order)@[j],
        final(visited)@ == discover(st@, id as int, old(visited)@, fuel).0,
        final(order)@ == old(order)@ + discover(st@, id as int, old(visited)@, fuel).1,
    decreases st@.len() - count_true(old(visited)@),
{
    if visited[id] {
        proof {
            assert(order@ + Seq::<usize>::empty() =~= order@);
        }
        return;
    }
    proof {
        lemma_count_set(visited@, id as int);
        lemma_count_bound(visited@.update(id as int, true));
    }
    visited.set(id, true);
    let ghost v0 = old(visited)@;
    let ghost o0 = old(order)@;
    let ghost n = st@.len();
    let f = st[id].get_if_failure();
    match f {
        Some(h) => {
            proof {
                lemma_reach_step(st@, entry, id as int, h.id as int);
            }
            let ghost vb = visited@;
            add_processes(st, h.id, visited, order, Ghost(entry), Ghost((fuel - 1) as nat));
            proof {
                lemma_count_mono(vb, visited@);
                assert forall|x: int| 0 <= x < n && x != id && visited@[x] && !v0[x] implies order@.contains(x as usize) by {
                    assert(vb[x] == v0[x]);
                }
            }
        },
        None => {
            proof {
                assert(order@ =~= o0 + Seq::<usize>::empty());
            }
        },
    }
    let ghost fa = if let Some(h) = st@[id as int].failure_view() {
        discover(st@, h.id as int, v0.update(id as int, true), (fuel - 1) as nat)
    } else {
        (v0.update(id as int, true), Seq::<usize>::empty())
    };
    proof {
        assert(visited@ == fa.0);
        assert(order@ == o0 + fa.1);
        assert forall|j: int| 0 <= j < order@.len() implies order@[j] != id by {
            if j < o0.len() {
                assert(order@[j] == order@.subrange(0, o0.len() as int)[j]);
            }
        }
    }
    let ghost before_push = order@;
    order.push(id);
    proof {
        assert(order@.drop_last() =~= before_push);
        assert(order@[order@.len() - 1] == id);
        assert forall|x: int| 0 <= x < n && visited@[x] && !v0[x] implies order@.contains(x as usize) by {
            if x == id {
                assert(order@[order@.len() - 1] == id);
            } else {
                assert(order@.drop_last().contains(x as usize));
                let w = choose|j: int| 0 <= j < order@.len() - 1 && order@.drop_last()[j] == x as usize;
                assert(order@[w] == x as usize);
            }
        }
        assert(order@.subrange(0, o0.len() as int) =~= o0);
    }
    let all = st[id].get_all_next();
    let ghost nexts = st@[id as int].next_view();
    let ghost f1 = (fuel - 1) as nat;
    let ghost whole = discover_list(st@, nexts, 0, fa.0, f1);
    proof {
        assert(order@ == o0 + fa.1 + seq![id]);
    }
    let mut k: usize = 0;
    while k < all.len()
        invariant
            nexts == st@[id as int].next_view(),
            f1 == fuel - 1,
            f1 >= n - count_true(visited@),
            whole == discover_list(st@, nexts, 0, fa.0, f1),
            discover_list(st@, nexts, k as int, visited@, f1).0 == whole.0,
            order@ + discover_list(st@, nexts, k as int, visited@, f1).1 == o0 + fa.1 + seq![id] + whole.1,
            edges_valid(st@),
            id < n,
            n == st@.len(),
            all@.len() == st@[id as int].next_view().len(),
            forall|j: int| 0 <= j < all@.len() ==> all@[j] == (#[trigger] st@[id as int].next_view()[j]).0,
            0 <= k <= all@.len(),
            visited@.len() == n,
            visited@[id as int],
            v0.len() == n,
            v0 == old(visited)@,
            !v0[id as int],
            count_true(visited@) >= count_true(v0) + 1,
            forall|x: int| 0 <= x < n && v0[x] ==> visited@[x],
            forall|x: int| 0 <= x < n && visited@[x] ==> reachable(st@, entry, x),
            forall|x: int, b: int|
                #![trigger links_to(st@[x], b)]
                0 <= x < n && visited@[x] && !v0[x] && x != id && links_to(st@[x], b) ==> 0 <= b < n
                    && visited@[b],
            st@[id as int].failure_view() matches Some(h) ==> visited@[h.id as int],
            forall|j: int| 0 <= j < k ==> visited@[(#[trigger] all@[j]).id as int],
            order@.len() >= o0.len() + 1,
            order@.subrange(0, o0.len() as int) == o0,
            forall|j: int| 0 <= j < o0.len() ==> (#[trigger] o0[j]) < n && v0[o0[j] as int],
            forall|j: int| o0.len() <= j < order@.len() ==> (#[trigger] order@[j]) < n
                && visited@[order@[j] as int] && !v0[order@[j] as int],
            forall|x: int| 0 <= x < n && visited@[x] && !v0[x] ==> order@.contains(x as usize),
            forall|i: int, j: int| 0 <= i < j < order@.len() ==> order@[i] != order@[j],
        decreases all@.len() - k,
    {
        let h = all[k];
        proof {
            assert(st@[id as int].next_view()[k as int].0 == h);
            assert(links_to(st@[id as int], h.id as int));
            lemma_reach_step(st@, entry, id as int, h.id as int);
            lemma_count_bound(visited@);
            assert forall|j: int| 0 <= j < order@.len() implies (#[trigger] order@[j]) < n && visited@[order@[j] as int] by {
                if j < o0.len() {
                    assert(order@[j] == order@.subrange(0, o0.len() as int)[j]);
                }
            }
        }
        let ghost vb = visited@;
        let ghost ob = order@;
        proof {
            assert(nexts[k as int].0 == h);
        }
        add_processes(st, h.id, visited, order, Ghost(entry), Ghost(f1));
        proof {
            lemma_count_mono(vb, visited@);
            let rest = discover_list(st@, nexts, k + 1, visited@, f1);
            assert(discover_list(st@, nexts, k as int, vb, f1) == (rest.0, discover(st@, h.id as int, vb, f1).1 + rest.1));
            assert(order@ + rest.1 =~= ob + discover_list(st@, nexts, k as int, vb, f1).1);
            assert forall|j: int| 0 <= j < k + 1 implies visited@[(#[trigger] all@[j]).id as int] by {
                assert(all@[j] == st@[id as int].next_view()[j].0);
                if j < k {
                    assert(vb[all@[j].id as int]);
                }
            }
            assert forall|x: int| 0 <= x < n && visited@[x] && !v0[x] implies order@.contains(x as usize) by {
                if vb[x] {
                    let w = choose|j: int| 0 <= j < ob.len() && ob[j] == x as usize;
                    assert(order@[w] == ob[w]);
                }
            }
            assert forall|j: int| o0.len() <= j < order@.len() implies (#[trigger] order@[j]) < n
                && visited@[order@[j] as int] && !v0[order@[j] as int] by {
                if j < ob.len() {
                    assert(order@[j] == order@.subrange(0, ob.len() as int)[j]);
                }
            }
            assert(order@.subrange(0, o0.len() as int) =~= o0) by {
                assert forall|j: int| 0 <= j < o0.len() implies order@[j] == o0[j] by {
                    assert(order@[j] == order@.subrange(0, ob.len() as int)[j]);
                    assert(ob[j] == ob.subrange(0, o0.len() as int)[j]);
                }
            }
        }
        k = k + 1;
    }
    proof {
        assert forall|x: int, b: int|
            #![trigger links_to(st@[x], b)]
            0 <= x < n && visited@[x] && !v0[x] && links_to(st@[x], b) implies 0 <= b < n && visited@[b] by {
            if x == id {
                if !(st@[x].failure_view() matches Some(f) && f.id == b) {
                    let kk = choose|kk: int| 0 <= kk < st@[x].next_view().len() && (#[trigger] st@[x].next_view()[kk]).0.id == b;
                    assert(all@[kk].id == b);
                }
            }
        }
    }
}

/// Collects the stations, devices, edges and producer of a model before it runs.
pub struct ModelConstructor {
    producer: Option<ModelProducer>,
    processes: Vec<ModelProcess>,
}

impl ModelConstructor {
    /// The producer set so far.
    pub closed spec fn producer_view(&self) -> Option<ModelProducer> {
        self.producer
    }

    /// The stations registered so far; a handle's id is its index.
    pub closed spec fn processes_view(&self) -> Seq<ModelProcess> {
        self.processes@
    }

    /// Every station is well formed and has not run, every edge names a
    /// registered station other than its source, and the producer has not run.
    pub open spec fn wf(&self) -> bool {
        &&& forall|i: int|
            0 <= i < self.processes_view().len() ==> {
                &&& (#[trigger] self.processes_view()[i]).wf()
                &&& self.processes_view()[i].base_view().timed(0)
            }
        &&& edges_valid(self.processes_view())
        &&& self.producer_view() matches Some(p) ==> p.wf() && p.produced_view() == 0 && p.elapsed() == 0
    }

    /// An empty model.
    pub fn new() -> (r: Self)
        ensures
            r.wf(),
            r.producer_view() is None,
            r.processes_view().len() == 0,
    {
        ModelConstructor { producer: None, processes: Vec::new() }
    }

    /// Sets the producer.
    pub fn set_producer(&mut self, producer: ModelProducer)
        requires
            old(self).wf(),
            producer.wf(),
            producer.produced_view() == 0,
            producer.elapsed() == 0,
        ensures
            final(self).wf(),
            final(self).producer_view() == Some(producer),
            final(self).processes_view() == old(self).processes_view(),
    {
        self.producer = Some(producer);
    }

    /// Registers a station and returns its handle.
    pub fn add_process(&mut self, proc: ModelProcess) -> (h: SharedProcess)
        requires
            old(self).wf(),
            proc.wf(),
            proc.base_view().timed(0),
            proc.next_view().len() == 0,
            proc.failure_view() is None,
        ensures
            final(self).wf(),
            h.id == old(self).processes_view().len(),
            final(self).processes_view() == old(self).processes_view().push(proc),
            final(self).producer_view() == old(self).producer_view(),
    {
        let h = SharedProcess::new(self.processes.len());
        self.processes.push(proc);
        proof {
            let st = self.processes@;
            assert forall|i: int| 0 <= i < st.len() implies (#[trigger] st[i]).wf() && st[i].base_view().timed(0) by {
                if i < st.len() - 1 {
                    assert(st[i] == old(self).processes@[i]);
                }
            }
            assert forall|a: int| 0 <= a < st.len() implies {
                &&& ((#[trigger] st[a]).failure_view() matches Some(f) ==> f.id < st.len() && f.id != a)
                &&& forall|k: int|
                    0 <= k < st[a].next_view().len() ==> (#[trigger] st[a].next_view()[k]).0.id < st.len()
                        && st[a].next_view()[k].0.id != a
            } by {
                if a < st.len() - 1 {
                    assert(st[a] == old(self).processes@[a]);
                }
            }
        }
        h
    }

    /// Adds an idle device to station `proc`.
    pub fn add_device(&mut self, proc: SharedProcess, device: Device) -> (r: Result<(), ConfigError>)
        requires
            old(self).wf(),
            device.wf(),
            !device.is_busy(),
            device.stats_view().total_time == 0,
        ensures
            final(self).wf(),
            final(self).producer_view() == old(self).producer_view(),
            final(self).processes_view().len() == old(self).processes_view().len(),
            r is Err <==> proc.id >= old(self).processes_view().len(),
            r is Err ==> r == Err::<(), ConfigError>(ConfigError::UnknownStation) && final(self).processes_view()
                == old(self).processes_view(),
            r is Ok ==> {
                let o = old(self).processes_view()[proc.id as int];
                let p = final(self).processes_view()[proc.id as int];
                &&& p.base_view().devices_view() == o.base_view().devices_view().push(device)
                &&& p.next_view() == o.next_view()
                &&& p.failure_view() == o.failure_view()
                &&& forall|j: int|
                    0 <= j < old(self).processes_view().len() && j != proc.id ==> (#[trigger] final(self).processes_view()[j])
                        == old(self).processes_view()[j]
            },
    {
        if proc.id >= self.processes.len() {
            return Err(ConfigError::UnknownStation);
        }
        self.processes[proc.id].add_device(device);
        proof {
            self.lemma_one_changed(*old(self), proc.id as int);
        }
        Ok(())
    }

    /// Adds `to` as a successor of `from` with weight `priority`; nothing
    /// changes if it already is one.
    pub fn add_next(&mut self, from: SharedProcess, to: SharedProcess, priority: u16) -> (r: Result<
        (),
        ConfigError,
    >)
        requires
            old(self).wf(),
        ensures
            final(self).wf(),
            final(self).producer_view() == old(self).producer_view(),
            final(self).processes_view().len() == old(self).processes_view().len(),
            ({
                let n = old(self).processes_view().len();
                if from.id >= n || to.id >= n {
                    r == Err::<(), ConfigError>(ConfigError::UnknownStation)
                } else if from.id == to.id {
                    r == Err::<(), ConfigError>(ConfigError::SelfSuccessor)
                } else if priority == 0 {
                    r == Err::<(), ConfigError>(ConfigError::ZeroWeight)
                } else if total_weight(old(self).processes_view()[from.id as int].next_view()) + priority
                    > u64::MAX {
                    r == Err::<(), ConfigError>(ConfigError::WeightOverflow)
                } else {
                    r is Ok
                }
            }),
            r is Err ==> final(self).processes_view() == old(self).processes_view(),
            r is Ok ==> {
                let o = old(self).processes_view()[from.id as int];
                let p = final(self).processes_view()[from.id as int];
                &&& p.next_view() == if o.has_next(to) {
                    o.next_view()
                } else {
                    o.next_view().push((to, priority))
                }
                &&& p.base_view() == o.base_view()
                &&& p.failure_view() == o.failure_view()
                &&& forall|j: int|
                    0 <= j < old(self).processes_view().len() && j != from.id ==> (#[trigger] final(self).processes_view()[j])
                        == old(self).processes_view()[j]
            },
    {
        let n = self.processes.len();
        if from.id >= n || to.id >= n {
            return Err(ConfigError::UnknownStation);
        }
        if from.id == to.id {
            return Err(ConfigError::SelfSuccessor);
        }
        if priority == 0 {
            return Err(ConfigError::ZeroWeight);
        }
        let total = self.processes[from.id].get_total_weight();
        if total > u64::MAX - priority as u64 {
            return Err(ConfigError::WeightOverflow);
        }
        let ghost o = self.processes@[from.id as int];
        self.processes[from.id].add_next(to, priority);
        proof {
            let p = self.processes@[from.id as int];
            assert forall|k: int| 0 <= k < p.next_view().len() implies (#[trigger] p.next_view()[k]).0.id
                < n && p.next_view()[k].0.id != from.id by {
                if k < o.next_view().len() {
                    assert(p.next_view()[k] == o.next_view()[k]);
                }
            }
            self.lemma_one_changed(*old(self), from.id as int);
        }
        Ok(())
    }

    /// Makes `to` the failure target of `from`.
    pub fn set_if_failure(&mut self, from: SharedProcess, to: SharedProcess) -> (r: Result<(), ConfigError>)
        requires
            old(self).wf(),
        ensures
            final(self).wf(),
            final(self).producer_view() == old(self).producer_view(),
            final(self).processes_view().len() == old(self).processes_view().len(),
            ({
                let n = old(self).processes_view().len();
                if from.id >= n || to.id >= n {
                    r == Err::<(), ConfigError>(ConfigError::UnknownStation)
                } else if from.id == to.id {
                    r == Err::<(), ConfigError>(ConfigError::SelfFailure)
                } else {
                    r is Ok
                }
            }),
            r is Err ==> final(self).processes_view() == old(self).processes_view(),
            r is Ok ==> {
                let o = old(self).processes_view()[from.id as int];
                let p = final(self).processes_view()[from.id as int];
                &&& p.failure_view() == Some(to)
                &&& p.base_view() == o.base_view()
                &&& p.next_view() == o.next_view()
                &&& forall|j: int|
                    0 <= j < old(self).processes_view().len() && j != from.id ==> (#[trigger] final(self).processes_view()[j])
                        == old(self).processes_view()[j]
            },
    {
        let n = self.processes.len();
        if from.id >= n || to.id >= n {
            return Err(ConfigError::UnknownStation);
        }
        if from.id == to.id {
            return Err(ConfigError::SelfFailure);
        }
        self.processes[from.id].set_if_failure(to);
        proof {
            self.lemma_one_changed_failure(*old(self), from.id as int);
        }
        Ok(())
    }

    /// The mistake that sealing reports, if any: no producer, an entry that
    /// is no station, a station that the entry cannot reach, or a station
    /// without a device, in that order.
    pub open spec fn config_error(&self) -> Option<ConfigError> {
        let st = self.processes_view();
        let n = st.len();
        match self.producer_view() {
            None => Some(ConfigError::NoProducer),
            Some(p) => if p.entry().id >= n {
                Some(ConfigError::UnknownStation)
            } else if exists|i: int| 0 <= i < n && !reachable(st, p.entry().id as int, i) {
                Some(ConfigError::Unreachable)
            } else if exists|i: int| 0 <= i < n && (#[trigger] st[i]).base_view().devices_view().len() == 0 {
                Some(ConfigError::NoDevices)
            } else {
                None
            },
        }
    }

    /// Seals the model: discovers every station reachable from the
    /// producer's entry and checks that this is every registered station,
    /// and that each has a device.
    pub fn construct(self) -> (r: Result<Model, ConfigError>)
        requires
            self.wf(),
        ensures
            match self.config_error() {
                Some(e) => r == Err::<Model, ConfigError>(e),
                None => r matches Ok(m) && {
                    &&& m.wf()
                    &&& m.processes_view() == self.processes_view()
                    &&& Some(m.producer_view()) == self.producer_view()
                    &&& m.order_view() == discover(
                        self.processes_view(),
                        m.producer_view().entry().id as int,
                        Seq::new(self.processes_view().len(), |x: int| false),
                        self.processes_view().len(),
                    ).1
                    &&& m.clock() == 0
                    &&& !m.halted_view()
                },
            },
    {
        let ghost st = self.processes@;
        let ghost ghost_producer = self.producer;
        let n = self.processes.len();
        let producer = match self.producer {
            None => {
                return Err(ConfigError::NoProducer);
            },
            Some(p) => p,
        };
        let entry = producer.get_next().id;
        if entry >= n {
            return Err(ConfigError::UnknownStation);
        }
        let mut visited: Vec<bool> = Vec::new();
        while visited.len() < n
            invariant
                visited@.len() <= n,
                forall|j: int| 0 <= j < visited@.len() ==> !visited@[j],
            decreases n - visited@.len(),
        {
            visited.push(false);
        }
        let ghost v0 = visited@;
        proof {
            assert(v0 =~= Seq::new(st.len(), |x: int| false));
        }
        let mut order: Vec<usize> = Vec::new();
        proof {
            lemma_reach_self(st, entry as int);
        }
        add_processes(&self.processes, entry, &mut visited, &mut order, Ghost(entry as int), Ghost(n as nat));
        let ghost vs = Set::new(|x: int| 0 <= x < n && visited@[x]);
        proof {
            assert(closed_under(st, vs)) by {
                assert forall|a: int, b: int|
                    #![trigger vs.contains(a), links_to(st[a], b)]
                    vs.contains(a) && 0 <= a < st.len() && links_to(st[a], b) implies vs.contains(b) by {
                    assert(!v0[a]);
                }
            }
        }
        let mut i: usize = 0;
        while i < n
            invariant
                0 <= i <= n,
                n == st.len(),
                visited@.len() == n,
                forall|j: int| 0 <= j < i ==> visited@[j],
                closed_under(st, vs),
                vs.contains(entry as int),
                forall|x: int| vs.contains(x) <==> (0 <= x < n && visited@[x]),
                ghost_producer == Some(producer),
                ghost_producer == self.producer_view(),
                st == self.processes_view(),
                entry == producer.entry().id,
                entry < n,
            decreases n - i,
        {
            if !visited[i] {
                proof {
                    assert(!vs.contains(i as int));
                    assert(vs.contains(entry as int));
                    assert(!reachable(st, entry as int, i as int));
                    assert(exists|i: int| 0 <= i < n && !reachable(st, producer.entry().id as int, i));
                }
                return Err(ConfigError::Unreachable);
            }
            i = i + 1;
        }
        proof {
            assert forall|x: int| 0 <= x < n implies reachable(st, entry as int, x) by {
                assert(visited@[x]);
            }
        }
        let mut i: usize = 0;
        while i < n
            invariant
                0 <= i <= n,
                n == self.processes@.len(),
                st == self.processes@,
                forall|j: int| 0 <= j < i ==> (#[trigger] st[j]).base_view().devices_view().len() > 0,
                forall|x: int| 0 <= x < n ==> reachable(st, entry as int, x),
                ghost_producer == Some(producer),
                ghost_producer == self.producer_view(),
                st == self.processes_view(),
                entry == producer.entry().id,
                entry < n,
            decreases n - i,
        {
            if self.processes[i].get_base().get_devices().len() == 0 {
                proof {
                    assert(st[i as int].base_view().devices_view().len() == 0);
                }
                return Err(ConfigError::NoDevices);
            }
            i = i + 1;
        }
        proof {
            assert forall|x: usize| x < n implies #[trigger] order@.contains(x) by {
                assert(!v0[x as int]);
            }
            assert(order@.no_duplicates());
            order@.unique_seq_to_set();
            vstd::set_lib::lemma_int_range(0, n as int);
            let r = vstd::set_lib::set_int_range(0, n as int);
            let os = order@.to_set().map(|x: usize| x as int);
            assert(os =~= r) by {
                assert forall|x: int| r.contains(x) implies os.contains(x) by {
                    assert(order@.contains(x as usize));
                    assert(order@.to_set().contains(x as usize));
                }
            }
            assert(vstd::relations::injective_on(|x: usize| x as int, order@.to_set()));
            vstd::set_lib::lemma_map_size(order@.to_set(), os, |x: usize| x as int);
            assert forall|x: int| 0 <= x < n implies reachable(st, entry as int, x) by {
                assert(visited@[x]);
            }
        }
        Ok(
            Model {
                producer: producer,
                processes: self.processes,
                order: order,
                current_time: 0,
                halted: false,
            },
        )
    }

    proof fn lemma_one_changed_failure(&self, o: ModelConstructor, i: int)
        requires
            o.wf(),
            0 <= i < o.processes@.len(),
            self.producer == o.producer,
            self.processes@ == o.processes@.update(i, self.processes@[i]),
            self.processes@[i].wf(),
            self.processes@[i].base_view() == o.processes@[i].base_view(),
            self.processes@[i].next_view() == o.processes@[i].next_view(),
            self.processes@[i].failure_view() matches Some(f) && f.id < o.processes@.len() && f.id != i,
        ensures
            self.wf(),
    {
        let st = self.processes@;
        assert forall|j: int| 0 <= j < st.len() implies (#[trigger] st[j]).wf() && st[j].base_view().timed(0) by {
            if j != i {
                assert(st[j] == o.processes@[j]);
            }
        }
        assert forall|a: int| 0 <= a < st.len() implies {
            &&& ((#[trigger] st[a]).failure_view() matches Some(f) ==> f.id < st.len() && f.id != a)
            &&& forall|k: int|
                0 <= k < st[a].next_view().len() ==> (#[trigger] st[a].next_view()[k]).0.id < st.len()
                    && st[a].next_view()[k].0.id != a
        } by {
            if a != i {
                assert(st[a] == o.processes@[a]);
            } else {
                assert forall|k: int| 0 <= k < st[a].next_view().len() implies (#[trigger] st[a].next_view()[k]).0.id
                    < st.len() && st[a].next_view()[k].0.id != a by {
                    assert(st[a].next_view()[k] == o.processes@[a].next_view()[k]);
                }
            }
        }
    }

    proof fn lemma_one_changed(&self, o: ModelConstructor, i: int)
        requires
            o.wf(),
            0 <= i < o.processes@.len(),
            self.producer == o.producer,
            self.processes@ == o.processes@.update(i, self.processes@[i]),
            self.processes@[i].wf(),
            self.processes@[i].base_view().timed(0),
            self.processes@[i].failure_view() == o.processes@[i].failure_view(),
            forall|k: int|
                0 <= k < self.processes@[i].next_view().len() ==> (#[trigger] self.processes@[i].next_view()[k]).0.id
                    < o.processes@.len() && self.processes@[i].next_view()[k].0.id != i,
        ensures
            self.wf(),
    {
        let st = self.processes@;
        assert forall|j: int| 0 <= j < st.len() implies (#[trigger] st[j]).wf() && st[j].base_view().timed(0) by {
            if j != i {
                assert(st[j] == o.processes@[j]);
            }
        }
        assert forall|a: int| 0 <= a < st.len() implies {
            &&& ((#[trigger] st[a]).failure_view() matches Some(f) ==> f.id < st.len() && f.id != a)
            &&& forall|k: int|
                0 <= k < st[a].next_view().len() ==> (#[trigger] st[a].next_view()[k]).0.id < st.len()
                    && st[a].next_view()[k].0.id != a
        } by {
            if a != i {
                assert(st[a] == o.processes@[a]);
            }
        }
    }
}

/// Whether a job offered to `p` goes no further: `p` takes it, or the
/// request counter of `p` is full.
pub open spec fn ends_walk(p: ModelProcess) -> bool {
    p.base_view().accepts() || p.base_view().stats_view().requests_number == u64::MAX
}

/// The stations that a job offered to `cur` is offered to, in order: `cur`,
/// then along failure targets while each turns it away, until a station
/// takes it, has no failure target, or names one already in `seen`.
pub open spec fn walk(st: Seq<ModelProcess>, cur: int, seen: Set<int>, fuel: nat) -> Seq<int>
    decreases fuel,
{
    if fuel == 0 {
        seq![]
    } else if ends_walk(st[cur]) {
        seq![cur]
    } else {
        match st[cur].failure_view() {
            None => seq![cur],
            Some(f) => if seen.contains(f.id as int) {
                seq![cur]
            } else {
                seq![cur] + walk(st, f.id as int, seen.insert(f.id as int), (fuel - 1) as nat)
            },
        }
    }
}

/// The stations that a job offered to `start` is offered to.
pub open spec fn cascade_path(st: Seq<ModelProcess>, start: int) -> Seq<int> {
    walk(st, start, set![start], st.len() as nat)
}

/// The last station that a job offered to `start` is offered to.
pub open spec fn cascade_last(st: Seq<ModelProcess>, start: int) -> int {
    let w = cascade_path(st, start);
    w[w.len() - 1]
}

/// The cascade of a job offered to `start` ends at a full request counter.
pub open spec fn ends_full(st: Seq<ModelProcess>, start: int) -> bool {
    st[cascade_last(st, start)].base_view().stats_view().requests_number == u64::MAX
}

/// `nst` is `st` after a job was offered to `start` and then along its
/// failure chain (see `Model::deliver`), with result `r`: every station of
/// the cascade but the last turned it away, the last took the offer (or was
/// left alone if its counter was full), and no other station changed.
#[verifier::opaque]
pub open spec fn delivered(st: Seq<ModelProcess>, nst: Seq<ModelProcess>, start: int, r: bool) -> bool {
    let w = cascade_path(st, start);
    let last = cascade_last(st, start);
    &&& nst.len() == st.len()
    &&& forall|j: int| 0 <= j < st.len() && !w.contains(j) ==> nst[j] == st[j]
    &&& forall|k: int| 0 <= k < w.len() - 1 ==> rejected(st[#[trigger] w[k]], nst[w[k]])
    &&& if ends_full(st, start) {
        !r && nst[last] == st[last]
    } else {
        offered(st[last], nst[last], r)
    }
}

/// `nst` is `st` after station `i` advanced its devices by `dt` (see
/// `ProcessBase::run`), completing `done` jobs, and then routed each of them:
/// nowhere if `i` has no successors, else to a successor of `i` (`starts`)
/// and along that successor's failure chain. `mids` are the stations after
/// the advance and after each routed job.
#[verifier::opaque]
pub open spec fn routed(
    st: Seq<ModelProcess>,
    nst: Seq<ModelProcess>,
    i: int,
    dt: nat,
    done: nat,
    mids: Seq<Seq<ModelProcess>>,
    starts: Seq<int>,
) -> bool {
    &&& mids.len() == done + 1
    &&& starts.len() == done
    &&& ProcessBase::advanced(st[i].base_view(), mids[0][i].base_view(), dt, done)
    &&& mids[0] == st.update(i, mids[0][i])
    &&& mids[0][i].next_view() == st[i].next_view()
    &&& mids[0][i].failure_view() == st[i].failure_view()
    &&& nst == mids[done as int]
    &&& routes_so_far(st[i], mids, starts, done as int)
}

/// One routed job: nothing happens if `p` has no successors; otherwise the
/// job is offered to the successor `start` of `p` and along its failure chain.
pub open spec fn route_one(p: ModelProcess, st: Seq<ModelProcess>, nst: Seq<ModelProcess>, start: int) -> bool {
    if p.next_view().len() == 0 {
        nst == st
    } else {
        &&& p.has_next(SharedProcess { id: start as usize })
        &&& (delivered(st, nst, start, true) || delivered(st, nst, start, false))
    }
}

/// The first `k` jobs completed by station `p` were routed as `route_one`
/// says, from `mids[j]` to `mids[j + 1]`.
#[verifier::opaque]
pub open spec fn routes_so_far(p: ModelProcess, mids: Seq<Seq<ModelProcess>>, starts: Seq<int>, k: int) -> bool {
    forall|j: int| 0 <= j < k ==> route_one(p, #[trigger] mids[j], mids[j + 1], starts[j])
}

proof fn lemma_routes_push(
    p: ModelProcess,
    mids: Seq<Seq<ModelProcess>>,
    starts: Seq<int>,
    k: int,
    next: Seq<ModelProcess>,
    start: int,
)
    requires
        routes_so_far(p, mids, starts, k),
        mids.len() == k + 1,
        starts.len() == k,
        route_one(p, mids[k], next, start),
    ensures
        routes_so_far(p, mids.push(next), starts.push(start), k + 1),
{
    reveal(routes_so_far);
    let m2 = mids.push(next);
    let s2 = starts.push(start);
    assert forall|j: int| 0 <= j < k + 1 implies route_one(p, #[trigger] m2[j], m2[j + 1], s2[j]) by {
        if j < k {
            assert(m2[j] == mids[j]);
            assert(m2[j + 1] == mids[j + 1]);
            assert(s2[j] == starts[j]);
            assert(route_one(p, mids[j], mids[j + 1], starts[j]));
        }
    }
}

/// `nst` is `st` after station `i` advanced by `dt` and routed what it completed.
pub open spec fn station_step(st: Seq<ModelProcess>, nst: Seq<ModelProcess>, i: int, dt: nat) -> bool {
    exists|done: nat, mids: Seq<Seq<ModelProcess>>, starts: Seq<int>|
        #[trigger] routed(st, nst, i, dt, done, mids, starts)
}

/// `new` is `old` after it turned a job away.
pub open spec fn rejected(old: ModelProcess, new: ModelProcess) -> bool {
    &&& ProcessBase::took_offer(old.base_view(), new.base_view(), false)
    &&& new.next_view() == old.next_view()
    &&& new.failure_view() == old.failure_view()
}

/// `new` is `old` after an offer that returned `r`.
pub open spec fn offered(old: ModelProcess, new: ModelProcess, r: bool) -> bool {
    &&& ProcessBase::took_offer(old.base_view(), new.base_view(), r)
    &&& new.next_view() == old.next_view()
    &&& new.failure_view() == old.failure_view()
}

proof fn lemma_walk(st: Seq<ModelProcess>, cur: int, seen: Set<int>, fuel: nat)
    requires
        edges_valid(st),
        0 <= cur < st.len(),
        seen.contains(cur),
        fuel >= 1,
    ensures
        ({
            let w = walk(st, cur, seen, fuel);
            &&& 1 <= w.len() <= fuel
            &&& w[0] == cur
            &&& forall|k: int| 1 <= k < w.len() ==> !seen.contains(#[trigger] w[k])
            &&& forall|k: int| 0 <= k < w.len() ==> 0 <= #[trigger] w[k] < st.len()
            &&& forall|i: int, j: int| 0 <= i < j < w.len() ==> w[i] != w[j]
            &&& forall|k: int|
                0 <= k < w.len() - 1 ==> !ends_walk(st[#[trigger] w[k]]) && st[w[k]].failure_view()
                    == Some(SharedProcess { id: w[k + 1] as usize })
        }),
    decreases fuel,
{
    let w = walk(st, cur, seen, fuel);
    if !ends_walk(st[cur]) {
        if let Some(f) = st[cur].failure_view() {
            let fid = f.id as int;
            if !seen.contains(fid) && fuel > 1 {
                let s2 = seen.insert(fid);
                lemma_walk(st, fid, s2, (fuel - 1) as nat);
                let rest = walk(st, fid, s2, (fuel - 1) as nat);
                assert(w == seq![cur] + rest);
                assert forall|k: int| 1 <= k < w.len() implies !seen.contains(#[trigger] w[k]) by {
                    assert(w[k] == rest[k - 1]);
                    if k > 1 {
                        assert(!s2.contains(rest[k - 1]));
                    }
                }
                assert forall|i: int, j: int| 0 <= i < j < w.len() implies w[i] != w[j] by {
                    if i > 0 {
                        assert(w[i] == rest[i - 1]);
                    } else {
                        assert(!seen.contains(w[j]));
                    }
                    assert(w[j] == rest[j - 1]);
                }
                assert forall|k: int| 0 <= k < w.len() implies 0 <= #[trigger] w[k] < st.len() by {
                    if k > 0 {
                        assert(w[k] == rest[k - 1]);
                    }
                }
                assert forall|k: int| 0 <= k < w.len() - 1 implies !ends_walk(st[#[trigger] w[k]])
                    && st[w[k]].failure_view() == Some(SharedProcess { id: w[k + 1] as usize }) by {
                    if k > 0 {
                        assert(w[k] == rest[k - 1]);
                        assert(w[k + 1] == rest[k]);
                    }
                }
            } else if !seen.contains(fid) {
                assert(walk(st, fid, seen.insert(fid), 0) == Seq::<int>::empty());
                assert(w =~= seq![cur]);
            }
        }
    }
}

/// A failure cascade tries each station at most once, in the order of the
/// failure chain from the station first offered the job, and so stops after
/// at most as many stations as the model has, cycles included. Every station
/// before the last turned the job away.
pub proof fn lemma_cascade_bounded(st: Seq<ModelProcess>, start: int)
    requires
        edges_valid(st),
        0 <= start < st.len(),
    ensures
        ({
            let w = cascade_path(st, start);
            &&& 1 <= w.len() <= st.len()
            &&& w[0] == start
            &&& forall|i: int, j: int| 0 <= i < j < w.len() ==> w[i] != w[j]
            &&& forall|k: int|
                0 <= k < w.len() - 1 ==> !ends_walk(st[#[trigger] w[k]]) && st[w[k]].failure_view()
                    == Some(SharedProcess { id: w[k + 1] as usize })
        }),
{
    lemma_walk(st, start, set![start], st.len() as nat);
}

/// `b` has the stations of `a` with the same successors and failure targets.
pub open spec fn same_graph(a: Seq<ModelProcess>, b: Seq<ModelProcess>) -> bool {
    &&& b.len() == a.len()
    &&& forall|j: int|
        0 <= j < a.len() ==> (#[trigger] b[j]).next_view() == a[j].next_view() && b[j].failure_view()
            == a[j].failure_view()
}

/// No station of `b` has fewer offered jobs than in `a`.
pub open spec fn requests_grew(a: Seq<ModelProcess>, b: Seq<ModelProcess>) -> bool {
    &&& b.len() == a.len()
    &&& forall|j: int|
        0 <= j < a.len() ==> (#[trigger] b[j]).base_view().stats_view().requests_number >= a[j].base_view().stats_view().requests_number
}

/// Some station's request counter is full.
pub open spec fn some_counter_full(st: Seq<ModelProcess>) -> bool {
    exists|j: int| 0 <= j < st.len() && (#[trigger] st[j]).base_view().stats_view().requests_number == u64::MAX
}

proof fn lemma_full_kept(a: Seq<ModelProcess>, b: Seq<ModelProcess>)
    requires
        requests_grew(a, b),
        some_counter_full(a),
    ensures
        some_counter_full(b),
{
    let j = choose|j: int| 0 <= j < a.len() && (#[trigger] a[j]).base_view().stats_view().requests_number == u64::MAX;
    assert(b[j].base_view().stats_view().requests_number >= a[j].base_view().stats_view().requests_number);
}

proof fn lemma_grew_trans(a: Seq<ModelProcess>, b: Seq<ModelProcess>, c: Seq<ModelProcess>)
    requires
        requests_grew(a, b),
        requests_grew(b, c),
    ensures
        requests_grew(a, c),
{
    assert forall|j: int| 0 <= j < a.len() implies (#[trigger] c[j]).base_view().stats_view().requests_number
        >= a[j].base_view().stats_view().requests_number by {
        assert(b[j].base_view().stats_view().requests_number >= a[j].base_view().stats_view().requests_number);
    }
}

/// `r` is the time from now to the next event of `m`: the least of the time
/// to the next arrival and the remaining work of every busy device.
pub open spec fn is_next_event(m: Model, r: nat) -> bool {
    let st = m.processes_view();
    &&& 1 <= r <= m.producer_view().due() - m.producer_view().elapsed()
    &&& forall|j: int, k: int|
        0 <= j < st.len() && 0 <= k < st[j].base_view().devices_view().len()
            && (#[trigger] st[j].base_view().devices_view()[k]).is_busy() ==> r
            <= st[j].base_view().devices_view()[k].remaining()->0
    &&& (r == m.producer_view().due() - m.producer_view().elapsed() || exists|j: int, k: int|
        0 <= j < st.len() && 0 <= k < st[j].base_view().devices_view().len()
            && (#[trigger] st[j].base_view().devices_view()[k]).remaining() == Some(r as u64))
}

/// Conservation of jobs: at every station of a model, each job ever offered
/// was turned away, was completed, is waiting, or is in service.
pub proof fn lemma_jobs_conserved(m: &Model, i: int)
    requires
        m.wf(),
        0 <= i < m.processes_view().len(),
    ensures
        ({
            let b = m.processes_view()[i].base_view();
            b.stats_view().requests_number == b.stats_view().failures + b.stats_view().processed + b.queue()
                + busy_count(b.devices_view())
        }),
{
}

/// No station of a model ever holds more waiting jobs than its capacity.
pub proof fn lemma_queue_within_capacity(m: &Model, i: int)
    requires
        m.wf(),
        0 <= i < m.processes_view().len(),
    ensures
        m.processes_view()[i].base_view().queue() <= m.processes_view()[i].base_view().capacity(),
{
}

/// A model ready to run or running: its stations in discovery order, its
/// producer and its clock.
pub struct Model {
    producer: ModelProducer,
    processes: Vec<ModelProcess>,
    order: Vec<usize>,
    current_time: u64,
    halted: bool,
}

impl Model {
    /// The producer.
    pub closed spec fn producer_view(&self) -> ModelProducer {
        self.producer
    }

    /// The stations; a handle's id is its index.
    pub closed spec fn processes_view(&self) -> Seq<ModelProcess> {
        self.processes@
    }

    /// Station indices in the order discovery found them.
    pub closed spec fn order_view(&self) -> Seq<usize> {
        self.order@
    }

    /// Time simulated so far.
    pub closed spec fn clock(&self) -> u64 {
        self.current_time
    }

    /// Whether a station's request counter filled up, which stops the run.
    pub closed spec fn halted_view(&self) -> bool {
        self.halted
    }

    /// The model's invariant apart from time: every station is well formed
    /// and has a device; every edge names another station; the producer's
    /// entry is a station; and the discovery order lists every station once.
    pub open spec fn core_wf(&self) -> bool {
        let st = self.processes_view();
        let n = st.len();
        &&& forall|i: int|
            0 <= i < n ==> {
                &&& (#[trigger] st[i]).wf()
                &&& st[i].base_view().devices_view().len() > 0
            }
        &&& edges_valid(st)
        &&& self.producer_view().wf()
        &&& self.producer_view().entry().id < n
        &&& self.order_view().len() == n
        &&& forall|j: int| 0 <= j < n ==> (#[trigger] self.order_view()[j]) < n
        &&& forall|i: int, j: int| 0 <= i < j < n ==> self.order_view()[i] != self.order_view()[j]
        &&& forall|x: usize| x < n ==> #[trigger] self.order_view().contains(x)
        &&& self.halted_view() ==> some_counter_full(st)
    }

    /// The model's invariant: `core_wf`, and every station and the producer
    /// have observed the whole run.
    pub open spec fn wf(&self) -> bool {
        &&& self.core_wf()
        &&& forall|i: int|
            0 <= i < self.processes_view().len() ==> (#[trigger] self.processes_view()[i]).base_view().timed(
                self.clock() as nat,
            )
        &&& self.producer_view().produced_view() + self.producer_view().elapsed() <= self.clock()
        &&& self.producer_view().produced_view() <= self.processes_view()[self.producer_view().entry().id as int].base_view().stats_view().requests_number
    }

    /// Offers a job to station `start`; if it is turned away, offers it along
    /// the failure chain as `cascade_path` gives. Returns whether a station
    /// took it. A full request counter stops the cascade and halts the model.
    pub fn deliver(&mut self, start: usize) -> (r: bool)
        requires
            old(self).core_wf(),
            start < old(self).processes_view().len(),
        ensures
            final(self).core_wf(),
            same_graph(old(self).processes_view(), final(self).processes_view()),
            requests_grew(old(self).processes_view(), final(self).processes_view()),
            old(self).processes_view()[start as int].base_view().stats_view().requests_number < u64::MAX
                ==> final(self).processes_view()[start as int].base_view().stats_view().requests_number
                == old(self).processes_view()[start as int].base_view().stats_view().requests_number + 1,
            forall|j: int|
                0 <= j < old(self).processes_view().len() ==> ProcessBase::kept_timing(
                    (#[trigger] old(self).processes_view()[j]).base_view(),
                    final(self).processes_view()[j].base_view(),
                ),
            final(self).producer_view() == old(self).producer_view(),
            final(self).order_view() == old(self).order_view(),
            final(self).clock() == old(self).clock(),
            final(self).processes_view().len() == old(self).processes_view().len(),
            delivered(old(self).processes_view(), final(self).processes_view(), start as int, r),
            final(self).halted_view() == (old(self).halted_view() || ends_full(
                old(self).processes_view(),
                start as int,
            )),
    {
        let ghost st0 = self.processes@;
        let n = self.processes.len();
        proof {
            lemma_walk(st0, start as int, set![start as int], n as nat);
        }
        let mut visited: Vec<bool> = Vec::new();
        while visited.len() < n
            invariant
                visited@.len() <= n,
                forall|j: int| 0 <= j < visited@.len() ==> !visited@[j],
            decreases n - visited@.len(),
        {
            visited.push(false);
        }
        visited.set(start, true);
        let mut cur = start;
        let ghost mut tried: Seq<int> = seq![];
        let ghost mut seen: Set<int> = set![start as int];
        proof {
            assert(seen =~= tried.to_set().insert(cur as int));
        }
        loop
            invariant
                n == st0.len(),
                n == self.processes@.len(),
                old(self).core_wf(),
                st0 == old(self).processes@,
                self.producer == old(self).producer,
                self.order@ == old(self).order@,
                self.current_time == old(self).current_time,
                self.halted == old(self).halted,
                cur < n,
                visited@.len() == n,
                seen.finite(),
                seen =~= tried.to_set().insert(cur as int),
                !tried.contains(cur as int),
                forall|j: int| 0 <= j < n ==> (visited@[j] <==> seen.contains(j)),
                forall|j: int| seen.contains(j) ==> 0 <= j < n,
                forall|i: int, j: int| 0 <= i < j < tried.len() ==> tried[i] != tried[j],
                seen.len() == tried.len() + 1,
                seen.len() <= n,
                tried + walk(st0, cur as int, seen, (n + 1 - seen.len()) as nat) == cascade_path(st0, start as int),
                forall|j: int| 0 <= j < n && !tried.contains(j) ==> self.processes@[j] == st0[j],
                forall|k: int| 0 <= k < tried.len() ==> rejected(st0[#[trigger] tried[k]], self.processes@[tried[k]]),
                tried.len() > 0 ==> tried[0] == start,
                tried.len() == 0 ==> cur == start,
                start < n,
                forall|j: int| 0 <= j < n ==> {
                    &&& (#[trigger] self.processes@[j]).wf()
                    &&& self.processes@[j].base_view().devices_view().len() > 0
                    &&& ProcessBase::kept_timing(st0[j].base_view(), self.processes@[j].base_view())
                    &&& self.processes@[j].next_view() == st0[j].next_view()
                    &&& self.processes@[j].failure_view() == st0[j].failure_view()
                },
            decreases n + 1 - seen.len(),
        {
            let ghost fuel = (n + 1 - seen.len()) as nat;
            let ghost before = self.processes@;
            proof {
                assert forall|k: int| 0 <= k < tried.len() implies tried[k] != cur by {
                    if tried[k] == cur {
                        assert(tried.contains(cur as int));
                    }
                }
                assert(before[cur as int] == st0[cur as int]);
                assert(seq![cur as int] + Seq::<int>::empty() =~= seq![cur as int]);
            }
            if self.processes[cur].get_base().get_stats().requests_number == u64::MAX {
                self.halted = true;
                proof {
                    assert(walk(st0, cur as int, seen, fuel) == seq![cur as int]);
                    self.lemma_deliver_end(st0, start as int, tried, cur as int, seen, fuel);
                    reveal(delivered);
                }
                return false;
            }
            let ok = self.processes[cur].get_mut_base().process();
            proof {
                assert(self.processes@ == before.update(cur as int, self.processes@[cur as int]));
                assert(offered(st0[cur as int], self.processes@[cur as int], ok));
                self.lemma_station_kept(before, cur as int, st0[cur as int].base_view());
                assert forall|k: int| 0 <= k < tried.len() implies rejected(
                    st0[#[trigger] tried[k]],
                    self.processes@[tried[k]],
                ) by {
                    assert(tried[k] != cur);
                    assert(tried.to_set().contains(tried[k]));
                    assert(seen.contains(tried[k]));
                    assert(self.processes@[tried[k]] == before[tried[k]]);
                }
            }
            if ok {
                proof {
                    assert(walk(st0, cur as int, seen, fuel) == seq![cur as int]);
                    self.lemma_deliver_end(st0, start as int, tried, cur as int, seen, fuel);
                    reveal(delivered);
                }
                return true;
            }
            match self.processes[cur].get_if_failure() {
                None => {
                    proof {
                        assert(walk(st0, cur as int, seen, fuel) == seq![cur as int]);
                        self.lemma_deliver_end(st0, start as int, tried, cur as int, seen, fuel);
                    reveal(delivered);
                    }
                    return false;
                },
                Some(f) => {
                    if visited[f.id] {
                        proof {
                            assert(walk(st0, cur as int, seen, fuel) == seq![cur as int]);
                            self.lemma_deliver_end(st0, start as int, tried, cur as int, seen, fuel);
                    reveal(delivered);
                        }
                        return false;
                    }
                    proof {
                        let fid = f.id as int;
                        assert(walk(st0, cur as int, seen, fuel) == seq![cur as int] + walk(
                            st0,
                            fid,
                            seen.insert(fid),
                            (fuel - 1) as nat,
                        ));
                        assert(tried.push(cur as int) + walk(st0, fid, seen.insert(fid), (fuel - 1) as nat)
                            =~= tried + walk(st0, cur as int, seen, fuel));
                        tried.lemma_push_to_set_commute(cur as int);
                        assert(edges_valid(st0));
                        assert(st0[cur as int].failure_view() == Some(f));
                        assert(fid < n);
                        assert(!seen.contains(fid));
                        assert(!tried.contains(fid) && fid != cur) by {
                            if tried.contains(fid) {
                                assert(tried.to_set().contains(fid));
                            }
                        }
                        assert forall|k: int| 0 <= k < tried.len() implies tried[k] != cur by {
                            if tried[k] == cur {
                                assert(tried.contains(cur as int));
                            }
                        }
                        assert forall|k: int| 0 <= k < tried.len() + 1 implies rejected(
                            st0[#[trigger] tried.push(cur as int)[k]],
                            self.processes@[tried.push(cur as int)[k]],
                        ) by {
                            if k < tried.len() {
                                assert(tried.push(cur as int)[k] == tried[k]);
                                assert(tried[k] != cur);
                            } else {
                                assert(tried.push(cur as int)[k] == cur);
                                assert(!ok);
                            }
                        }
                        assert forall|j: int| 0 <= j < n && !tried.push(cur as int).contains(j) implies self.processes@[j]
                            == st0[j] by {
                            assert(tried.push(cur as int)[tried.len() as int] == cur);
                            if tried.contains(j) {
                                let k = choose|k: int| 0 <= k < tried.len() && tried[k] == j;
                                assert(tried.push(cur as int)[k] == j);
                            }
                        }
                        tried = tried.push(cur as int);
                        seen = seen.insert(fid);
                        vstd::set_lib::lemma_int_range(0, n as int);
                        vstd::set_lib::lemma_len_subset(seen, vstd::set_lib::set_int_range(0, n as int));
                    }
                    visited.set(f.id, true);
                    cur = f.id;
                },
            }
        }
    }

    /// Advances station `i` by `dt` and routes each job it completed: to the
    /// successor that `get_next` picks, then along that successor's failure
    /// chain while it is turned away.
    #[verifier::rlimit(100)]
    fn run_station(&mut self, i: usize, dt: u64) -> (r: (usize, Ghost<Seq<Seq<ModelProcess>>>, Ghost<Seq<int>>))
        requires
            old(self).core_wf(),
            i < old(self).processes_view().len(),
            old(self).processes_view()[i as int].base_view().timed(old(self).processes_view()[i as int].base_view().devices_view()[0].stats_view().total_time as nat),
            old(self).processes_view()[i as int].base_view().devices_view()[0].stats_view().total_time + dt <= u64::MAX,
        ensures
            final(self).core_wf(),
            final(self).producer_view() == old(self).producer_view(),
            final(self).order_view() == old(self).order_view(),
            final(self).clock() == old(self).clock(),
            final(self).processes_view().len() == old(self).processes_view().len(),
            requests_grew(old(self).processes_view(), final(self).processes_view()),
            final(self).processes_view()[i as int].base_view().timed(
                (old(self).processes_view()[i as int].base_view().devices_view()[0].stats_view().total_time + dt) as nat,
            ),
            final(self).processes_view()[i as int].base_view().stats_view().queue_sizes
                == old(self).processes_view()[i as int].base_view().stats_view().queue_sizes,
            same_graph(old(self).processes_view(), final(self).processes_view()),
            forall|j: int|
                0 <= j < old(self).processes_view().len() && j != i ==> ProcessBase::kept_timing(
                    (#[trigger] old(self).processes_view()[j]).base_view(),
                    final(self).processes_view()[j].base_view(),
                ),
            routed(
                old(self).processes_view(),
                final(self).processes_view(),
                i as int,
                dt as nat,
                r.0 as nat,
                r.1@,
                r.2@,
            ),
    {
        let ghost st0 = self.processes@;
        let done = self.processes[i].get_mut_base().run(dt);
        let ghost after_run = self.processes@[i as int].base_view();
        proof {
            assert(self.processes@ == st0.update(i as int, self.processes@[i as int]));
            let st = self.processes@;
            assert forall|j: int| 0 <= j < st.len() implies {
                &&& (#[trigger] st[j]).wf()
                &&& st[j].base_view().devices_view().len() > 0
            } by {
                if j != i {
                    assert(st[j] == st0[j]);
                }
            }
            assert forall|a: int| 0 <= a < st.len() implies {
                &&& ((#[trigger] st[a]).failure_view() matches Some(f) ==> f.id < st.len() && f.id != a)
                &&& forall|k: int|
                    0 <= k < st[a].next_view().len() ==> (#[trigger] st[a].next_view()[k]).0.id < st.len()
                        && st[a].next_view()[k].0.id != a
            } by {
                assert(st[a].next_view() == st0[a].next_view());
                assert(st[a].failure_view() == st0[a].failure_view());
            }
            assert forall|j: int| 0 <= j < st.len() && j != i implies ProcessBase::kept_timing(
                (#[trigger] st0[j]).base_view(),
                st[j].base_view(),
            ) by {
                assert(st[j] == st0[j]);
                ProcessBase::lemma_kept_timing(st0[j].base_view(), st0[j].base_view(), st0[j].base_view(), 0);
            }
            ProcessBase::lemma_kept_timing(after_run, after_run, after_run, 0);
            assert(requests_grew(st0, st)) by {
                assert forall|j: int| 0 <= j < st0.len() implies (#[trigger] st[j]).base_view().stats_view().requests_number
                    >= st0[j].base_view().stats_view().requests_number by {
                    if j != i {
                        assert(st[j] == st0[j]);
                    }
                }
            }
            if self.halted {
                lemma_full_kept(st0, st);
            }
        }
        let ghost mut mids: Seq<Seq<ModelProcess>> = seq![self.processes@];
        let ghost mut starts: Seq<int> = seq![];
        proof {
            reveal(routes_so_far);
        }
        let mut k: usize = 0;
        while k < done
            invariant
                0 <= k <= done,
                mids.len() == k + 1,
                starts.len() == k,
                mids[0][i as int].base_view() == after_run,
                mids[0] == st0.update(i as int, mids[0][i as int]),
                mids[0][i as int].next_view() == st0[i as int].next_view(),
                mids[0][i as int].failure_view() == st0[i as int].failure_view(),
                mids[k as int] == self.processes@,
                routes_so_far(st0[i as int], mids, starts, k as int),
                self.core_wf(),
                i < self.processes@.len(),
                self.processes@.len() == st0.len(),
                self.producer == old(self).producer,
                self.order@ == old(self).order@,
                self.current_time == old(self).current_time,
                ProcessBase::kept_timing(after_run, self.processes@[i as int].base_view()),
                same_graph(st0, self.processes@),
                requests_grew(st0, self.processes@),
                forall|j: int|
                    0 <= j < st0.len() && j != i ==> ProcessBase::kept_timing(
                        (#[trigger] st0[j]).base_view(),
                        self.processes@[j].base_view(),
                    ),
            decreases done - k,
        {
            let nxt = self.processes[i].get_next();
            match nxt {
                Some(h) => {
                    let ghost mid = self.processes@;
                    proof {
                        let kk = choose|kk: int| 0 <= kk < mid[i as int].next_view().len() && (#[trigger] mid[i as int].next_view()[kk]).0 == h;
                        assert(mid[i as int].next_view()[kk].0.id < mid.len());
                    }
                    let ok = self.deliver(h.id);
                    proof {
                        assert(self.processes@[i as int].next_view() == st0[i as int].next_view());
                        assert(st0[i as int].has_next(h));
                        assert(delivered(mid, self.processes@, h.id as int, ok));
                        assert(route_one(st0[i as int], mids[k as int], self.processes@, h.id as int));
                        lemma_routes_push(st0[i as int], mids, starts, k as int, self.processes@, h.id as int);
                        mids = mids.push(self.processes@);
                        starts = starts.push(h.id as int);
                        lemma_grew_trans(st0, mid, self.processes@);
                        ProcessBase::lemma_kept_timing(after_run, mid[i as int].base_view(), self.processes@[i as int].base_view(), 0);
                        assert forall|j: int| 0 <= j < st0.len() && j != i implies ProcessBase::kept_timing(
                            (#[trigger] st0[j]).base_view(),
                            self.processes@[j].base_view(),
                        ) by {
                            ProcessBase::lemma_kept_timing(st0[j].base_view(), mid[j].base_view(), self.processes@[j].base_view(), 0);
                        }
                    }
                },
                None => {
                    proof {
                        assert(route_one(st0[i as int], mids[k as int], self.processes@, 0));
                        lemma_routes_push(st0[i as int], mids, starts, k as int, self.processes@, 0);
                        mids = mids.push(self.processes@);
                        starts = starts.push(0);
                    }
                },
            }
            k = k + 1;
        }
        proof {
            let c = (st0[i as int].base_view().devices_view()[0].stats_view().total_time + dt) as nat;
            ProcessBase::lemma_kept_timing(after_run, self.processes@[i as int].base_view(), self.processes@[i as int].base_view(), c);
        }
        proof {
            reveal(routed);
        }
        (done, Ghost(mids), Ghost(starts))
    }

    /// The time to the next event: the least of the time to the next arrival
    /// and the remaining work of every busy device.
    fn get_delta_time(&self) -> (r: u64)
        requires
            self.core_wf(),
        ensures
            is_next_event(*self, r as nat),
    {
        let mut best = self.producer.get_time();
        let mut j: usize = 0;
        while j < self.processes.len()
            invariant
                self.core_wf(),
                0 <= j <= self.processes@.len(),
                1 <= best <= self.producer_view().due() - self.producer_view().elapsed(),
                forall|jj: int, k: int|
                    0 <= jj < j && 0 <= k < self.processes_view()[jj].base_view().devices_view().len()
                        && (#[trigger] self.processes_view()[jj].base_view().devices_view()[k]).is_busy() ==> best
                        <= self.processes_view()[jj].base_view().devices_view()[k].remaining()->0,
                best == self.producer_view().due() - self.producer_view().elapsed() || exists|jj: int, k: int|
                    0 <= jj < j && 0 <= k < self.processes_view()[jj].base_view().devices_view().len()
                        && (#[trigger] self.processes_view()[jj].base_view().devices_view()[k]).remaining() == Some(best),
            decreases self.processes@.len() - j,
        {
            let w = self.processes[j].get_work_time();
            match w {
                Some(v) => {
                    if v < best {
                        best = v;
                        proof {
                            let b = self.processes_view()[j as int].base_view();
                            let k = choose|k: int| 0 <= k < b.devices_view().len() && (#[trigger] b.devices_view()[k]).remaining() == Some(v);
                            assert(self.processes_view()[j as int].base_view().devices_view()[k].remaining() == Some(best));
                        }
                    }
                },
                None => {},
            }
            j = j + 1;
        }
        best
    }

    /// Advances every station by `dt`, in the reverse of discovery order, then
    /// the producer, offering each arrival to the entry station.
    #[verifier::rlimit(100)]
    fn run(&mut self, dt: u64) -> (trace: Ghost<Seq<Seq<ModelProcess>>>)
        requires
            old(self).wf(),
            old(self).clock() + dt <= u64::MAX,
        ensures
            final(self).wf(),
            final(self).clock() == old(self).clock() + dt,
            final(self).order_view() == old(self).order_view(),
            final(self).processes_view().len() == old(self).processes_view().len(),
            final(self).producer_view().entry() == old(self).producer_view().entry(),
            same_graph(old(self).processes_view(), final(self).processes_view()),
            forall|j: int|
                0 <= j < old(self).processes_view().len() ==> (#[trigger] final(self).processes_view()[j]).base_view().stats_view().queue_sizes
                    == old(self).processes_view()[j].base_view().stats_view().queue_sizes,
            ({
                let t = trace@;
                let n = old(self).order_view().len() as int;
                let arr = final(self).producer_view().produced_view() - old(self).producer_view().produced_view();
                let entry = old(self).producer_view().entry().id as int;
                &&& arr >= 0
                &&& (arr == 0) == (dt < old(self).producer_view().due() - old(self).producer_view().elapsed())
                &&& t.len() == n + 1 + arr
                &&& t[0] == old(self).processes_view()
                &&& t[t.len() - 1] == final(self).processes_view()
                &&& forall|k: int|
                    0 <= k < n ==> station_step(#[trigger] t[k], t[k + 1], old(self).order_view()[n - 1 - k] as int, dt as nat)
                &&& forall|k: int|
                    n <= k < n + arr ==> (delivered(#[trigger] t[k], t[k + 1], entry, true) || delivered(t[k], t[k + 1], entry, false))
            }),
    {
        let ghost st0 = self.processes@;
        let ghost c = self.current_time as nat;
        let ghost c2 = (self.current_time + dt) as nat;
        let n = self.order.len();
        let mut idx: usize = n;
        let ghost mut t: Seq<Seq<ModelProcess>> = seq![self.processes@];
        while idx > 0
            invariant
                t.len() == n - idx + 1,
                t[0] == st0,
                t[t.len() - 1] == self.processes@,
                forall|k: int|
                    0 <= k < n - idx ==> station_step(#[trigger] t[k], t[k + 1], self.order@[n - 1 - k] as int, dt as nat),
                self.core_wf(),
                0 <= idx <= n,
                n == st0.len(),
                self.processes@.len() == n,
                self.order@ == old(self).order@,
                self.producer == old(self).producer,
                self.current_time == old(self).current_time,
                c == self.current_time,
                c + dt <= u64::MAX,
                c2 == c + dt,
                self.producer_view().produced_view() + self.producer_view().elapsed() <= c,
                same_graph(st0, self.processes@),
                requests_grew(st0, self.processes@),
                self.producer_view().entry().id < n,
                self.producer_view().produced_view() <= st0[self.producer_view().entry().id as int].base_view().stats_view().requests_number,
                forall|j: int|
                    0 <= j < n ==> (#[trigger] self.processes@[j]).base_view().timed(
                        if (exists|k: int| idx <= k < n && self.order@[k] == j) {
                            c2
                        } else {
                            c
                        },
                    ),
                forall|j: int|
                    0 <= j < n ==> (#[trigger] self.processes@[j]).base_view().stats_view().queue_sizes
                        == st0[j].base_view().stats_view().queue_sizes,
            decreases idx,
        {
            idx = idx - 1;
            let i = self.order[idx];
            let ghost before = self.processes@;
            proof {
                assert(!(exists|k: int| idx + 1 <= k < n && self.order@[k] == i)) by {
                    if exists|k: int| idx + 1 <= k < n && self.order@[k] == i {
                        let k = choose|k: int| idx + 1 <= k < n && self.order@[k] == i;
                        assert(self.order@[idx as int] != self.order@[k]);
                    }
                }
                assert(before[i as int].base_view().timed(c));
                assert(before[i as int].base_view().devices_view()[0].stats_view().total_time == c);
            }
            let step = self.run_station(i, dt);
            proof {
                assert(routed(before, self.processes@, i as int, dt as nat, step.0 as nat, step.1@, step.2@));
                assert(station_step(before, self.processes@, i as int, dt as nat));
                let t0 = t;
                t = t.push(self.processes@);
                assert forall|k: int|
                    0 <= k < n - idx implies station_step(#[trigger] t[k], t[k + 1], self.order@[n - 1 - k] as int, dt as nat) by {
                    if k < n - idx - 1 {
                        assert(t[k] == t0[k]);
                        assert(t[k + 1] == t0[k + 1]);
                    }
                }
                lemma_grew_trans(st0, before, self.processes@);
                assert forall|j: int| 0 <= j < n implies (#[trigger] self.processes@[j]).base_view().timed(
                    if (exists|k: int| idx <= k < n && self.order@[k] == j) {
                        c2
                    } else {
                        c
                    },
                ) by {
                    if j != i {
                        let t = if (exists|k: int| idx + 1 <= k < n && self.order@[k] == j) { c2 } else { c };
                        assert(before[j].base_view().timed(t));
                        ProcessBase::lemma_kept_timing(before[j].base_view(), self.processes@[j].base_view(), self.processes@[j].base_view(), t);
                        if exists|k: int| idx <= k < n && self.order@[k] == j {
                            let k = choose|k: int| idx <= k < n && self.order@[k] == j;
                            assert(k != idx);
                        }
                        if exists|k: int| idx + 1 <= k < n && self.order@[k] == j {
                            let k = choose|k: int| idx + 1 <= k < n && self.order@[k] == j;
                            assert(idx <= k < n);
                        }
                    } else {
                        assert(self.order@[idx as int] == j);
                    }
                }
                assert forall|j: int| 0 <= j < n implies (#[trigger] self.processes@[j]).base_view().stats_view().queue_sizes
                    == st0[j].base_view().stats_view().queue_sizes by {
                    if j != i {
                        assert(ProcessBase::kept_timing(before[j].base_view(), self.processes@[j].base_view()));
                    }
                }
            }
        }
        proof {
            assert forall|j: int| 0 <= j < n implies (#[trigger] self.processes@[j]).base_view().timed(c2) by {
                assert(self.order@.contains(j as usize));
                let k = choose|k: int| 0 <= k < n && self.order@[k] == j as usize;
                assert(exists|k: int| idx <= k < n && self.order@[k] == j);
            }
        }
        proof {
            let e = self.producer_view().entry().id as int;
            assert(self.processes@[e].base_view().stats_view().requests_number >= st0[e].base_view().stats_view().requests_number);
        }
        let ghost made0 = self.producer_view().produced_view();
        let ghost gap0 = self.producer_view().due() - self.producer_view().elapsed();
        let arrivals = self.producer.run(dt);
        let ghost prod_after = self.producer_view();
        let entry = self.producer.get_next();
        let mut a: u64 = 0;
        while a < arrivals
            invariant
                self.core_wf(),
                self.processes@.len() == n,
                n == st0.len(),
                self.order@ == old(self).order@,
                self.current_time == old(self).current_time,
                c == self.current_time,
                c + dt <= u64::MAX,
                c2 == c + dt,
                self.producer_view().entry() == entry,
                entry == old(self).producer_view().entry(),
                self.producer_view().produced_view() + self.producer_view().elapsed() <= c + dt,
                same_graph(st0, self.processes@),
                0 <= a <= arrivals,
                entry.id < n,
                self.producer_view().produced_view() <= self.processes@[entry.id as int].base_view().stats_view().requests_number
                    + (arrivals - a),
                forall|j: int| 0 <= j < n ==> (#[trigger] self.processes@[j]).base_view().timed(c2),
                forall|j: int|
                    0 <= j < n ==> (#[trigger] self.processes@[j]).base_view().stats_view().queue_sizes
                        == st0[j].base_view().stats_view().queue_sizes,
                t.len() == n + 1 + a,
                self.producer_view() == prod_after,
                prod_after.produced_view() == made0 + arrivals,
                made0 == old(self).producer_view().produced_view(),
                gap0 == old(self).producer_view().due() - old(self).producer_view().elapsed(),
                (arrivals == 0) == (dt < gap0),
                0 <= a <= arrivals,
                t[0] == st0,
                t[t.len() - 1] == self.processes@,
                forall|k: int|
                    0 <= k < n ==> station_step(#[trigger] t[k], t[k + 1], self.order@[n - 1 - k] as int, dt as nat),
                forall|k: int|
                    n <= k < n + a ==> (delivered(#[trigger] t[k], t[k + 1], entry.id as int, true) || delivered(t[k], t[k + 1], entry.id as int, false)),
            decreases arrivals - a,
        {
            let ghost before = self.processes@;
            let ok = self.deliver(entry.id);
            proof {
                let t0 = t;
                t = t.push(self.processes@);
                assert(delivered(before, self.processes@, entry.id as int, ok));
                assert forall|k: int| 0 <= k < n implies station_step(#[trigger] t[k], t[k + 1], self.order@[n - 1 - k] as int, dt as nat) by {
                    assert(t[k] == t0[k]);
                    assert(t[k + 1] == t0[k + 1]);
                }
                assert forall|k: int|
                    n <= k < n + a + 1 implies (delivered(#[trigger] t[k], t[k + 1], entry.id as int, true) || delivered(t[k], t[k + 1], entry.id as int, false)) by {
                    if k < n + a {
                        assert(t[k] == t0[k]);
                        assert(t[k + 1] == t0[k + 1]);
                    }
                }
                assert forall|j: int| 0 <= j < n implies (#[trigger] self.processes@[j]).base_view().timed(c2)
                    && self.processes@[j].base_view().stats_view().queue_sizes == st0[j].base_view().stats_view().queue_sizes by {
                    assert(before[j].base_view().timed(c2));
                    ProcessBase::lemma_kept_timing(before[j].base_view(), self.processes@[j].base_view(), self.processes@[j].base_view(), c2);
                }
            }
            a = a + 1;
        }
        self.current_time = self.current_time + dt;
        Ghost(t)
    }

    /// Records every station's queue length.
    fn measure_stats(&mut self)
        requires
            old(self).wf(),
        ensures
            final(self).wf(),
            final(self).clock() == old(self).clock(),
            final(self).order_view() == old(self).order_view(),
            final(self).producer_view() == old(self).producer_view(),
            final(self).processes_view().len() == old(self).processes_view().len(),
            same_graph(old(self).processes_view(), final(self).processes_view()),
            forall|j: int|
                0 <= j < old(self).processes_view().len() ==> (#[trigger] final(self).processes_view()[j]).base_view().stats_view().queue_sizes@
                    == old(self).processes_view()[j].base_view().stats_view().queue_sizes@.push(
                    old(self).processes_view()[j].base_view().queue() as usize,
                ),
    {
        let ghost st0 = self.processes@;
        let mut j: usize = 0;
        while j < self.processes.len()
            invariant
                0 <= j <= self.processes@.len(),
                self.processes@.len() == st0.len(),
                st0 == old(self).processes@,
                old(self).wf(),
                self.producer == old(self).producer,
                self.order@ == old(self).order@,
                self.current_time == old(self).current_time,
                self.halted == old(self).halted,
                forall|x: int|
                    j <= x < st0.len() ==> #[trigger] self.processes@[x] == st0[x],
                forall|x: int|
                    0 <= x < j ==> {
                        let o = st0[x];
                        let p = #[trigger] self.processes@[x];
                        &&& p.wf()
                        &&& p.next_view() == o.next_view()
                        &&& p.failure_view() == o.failure_view()
                        &&& p.base_view().devices_view() == o.base_view().devices_view()
                        &&& p.base_view().capacity() == o.base_view().capacity()
                        &&& p.base_view().stats_view().total_wait_time == o.base_view().stats_view().total_wait_time
                        &&& p.base_view().stats_view().requests_number == o.base_view().stats_view().requests_number
                        &&& p.base_view().stats_view().queue_sizes@ == o.base_view().stats_view().queue_sizes@.push(
                            o.base_view().queue() as usize,
                        )
                    },
            decreases self.processes@.len() - j,
        {
            let ghost before = self.processes@;
            self.processes[j].get_mut_base().measure_stats();
            proof {
                assert(self.processes@ == before.update(j as int, self.processes@[j as int]));
                assert(before[j as int] == st0[j as int]);
            }
            j = j + 1;
        }
        proof {
            let st = self.processes@;
            assert(requests_grew(st0, st)) by {
                assert forall|x: int| 0 <= x < st0.len() implies (#[trigger] st[x]).base_view().stats_view().requests_number
                    >= st0[x].base_view().stats_view().requests_number by {
                    assert(0 <= x < j);
                }
            }
            if self.halted {
                lemma_full_kept(st0, st);
            }
            let e = self.producer_view().entry().id as int;
            assert(st[e].base_view().stats_view().requests_number >= st0[e].base_view().stats_view().requests_number);
            assert forall|a: int| 0 <= a < st.len() implies {
                &&& ((#[trigger] st[a]).failure_view() matches Some(f) ==> f.id < st.len() && f.id != a)
                &&& forall|k: int|
                    0 <= k < st[a].next_view().len() ==> (#[trigger] st[a].next_view()[k]).0.id < st.len()
                        && st[a].next_view()[k].0.id != a
            } by {
                assert(st[a].next_view() == st0[a].next_view());
            }
        }
    }

    /// Builds the model that `constructor` describes and runs it for
    /// `total_time` units, recording queue lengths every `check_period` units.
    /// The last step may pass `total_time` by less than `check_period`.
    pub fn simulate(total_time: u64, check_period: u64, constructor: ModelConstructor) -> (r: Result<
        Model,
        ConfigError,
    >)
        requires
            constructor.wf(),
            check_period >= 1,
            total_time + check_period <= u64::MAX,
        ensures
            match constructor.config_error() {
                Some(e) => r == Err::<Model, ConfigError>(e),
                None => r matches Ok(m) && {
                    let st = constructor.processes_view();
                    &&& m.wf()
                    &&& m.clock() >= total_time || m.halted_view()
                    &&& m.halted_view() ==> some_counter_full(m.processes_view())
                    &&& m.producer_view().produced_view() <= m.processes_view()[m.producer_view().entry().id as int].base_view().stats_view().requests_number
                    &&& forall|j: int, k: int|
                        0 <= j < st.len() && 0 <= k < m.processes_view()[j].base_view().stats_view().queue_sizes@.len()
                            ==> #[trigger] m.processes_view()[j].base_view().stats_view().queue_sizes@[k]
                            <= m.processes_view()[j].base_view().capacity()
                    &&& m.clock() < total_time + check_period
                    &&& same_graph(st, m.processes_view())
                    &&& m.order_view() == discover(
                        st,
                        m.producer_view().entry().id as int,
                        Seq::new(st.len(), |x: int| false),
                        st.len(),
                    ).1
                    &&& m.producer_view().entry() == constructor.producer_view()->0.entry()
                    &&& forall|j: int|
                        0 <= j < st.len() ==> (#[trigger] m.processes_view()[j]).base_view().stats_view().queue_sizes@.len()
                            == st[j].base_view().stats_view().queue_sizes@.len() + m.clock() / check_period
                },
            },
    {
        match constructor.construct() {
            Err(e) => Err(e),
            Ok(m) => {
                let mut m = m;
                let _ = m.sim(total_time, check_period);
                Ok(m)
            },
        }
    }

    /// Runs the model from time zero until `time`, one event at a time.
    fn sim(&mut self, time: u64, check_period: u64) -> (steps: Ghost<(Seq<Model>, Seq<nat>)>)
        requires
            old(self).wf(),
            old(self).clock() == 0,
            check_period >= 1,
            time + check_period <= u64::MAX,
        ensures
            final(self).wf(),
            final(self).clock() >= time || final(self).halted_view(),
            final(self).halted_view() ==> some_counter_full(final(self).processes_view()),
            final(self).order_view() == old(self).order_view(),
            final(self).clock() < time + check_period,
            final(self).processes_view().len() == old(self).processes_view().len(),
            final(self).producer_view().entry() == old(self).producer_view().entry(),
            same_graph(old(self).processes_view(), final(self).processes_view()),
            forall|j: int|
                0 <= j < old(self).processes_view().len() ==> (#[trigger] final(self).processes_view()[j]).base_view().stats_view().queue_sizes@.len()
                    == old(self).processes_view()[j].base_view().stats_view().queue_sizes@.len() + final(self).clock()
                    / check_period,
            ({
                let states = steps@.0;
                let offsets = steps@.1;
                &&& states.len() == offsets.len()
                &&& forall|k: int|
                    0 <= k < states.len() ==> {
                        let after = if k + 1 < states.len() {
                            states[k + 1].clock()
                        } else {
                            final(self).clock()
                        };
                        &&& #[trigger] offsets[k] < check_period
                        &&& exists|e: nat|
                            #[trigger] is_next_event(states[k], e) && after - states[k].clock() == if e
                                < check_period - offsets[k] {
                                e
                            } else {
                                (check_period - offsets[k]) as nat
                            }
                    }
            }),
    {
        let ghost st0 = self.processes@;
        let mut period_time: u64 = 0;
        let ghost mut checks: nat = 0;
        let ghost mut states: Seq<Model> = seq![];
        let ghost mut offsets: Seq<nat> = seq![];
        while self.current_time < time && !self.halted
            invariant
                states.len() == offsets.len(),
                forall|k: int|
                    0 <= k < states.len() ==> {
                        let after = if k + 1 < states.len() {
                            states[k + 1].clock()
                        } else {
                            self.clock()
                        };
                        &&& #[trigger] offsets[k] < check_period
                        &&& exists|e: nat|
                            #[trigger] is_next_event(states[k], e) && after - states[k].clock() == if e
                                < check_period - offsets[k] {
                                e
                            } else {
                                (check_period - offsets[k]) as nat
                            }
                    },
                self.wf(),
                check_period >= 1,
                time + check_period <= u64::MAX,
                period_time < check_period,
                self.current_time == checks * check_period + period_time,
                self.current_time < time + check_period,
                self.processes@.len() == st0.len(),
                self.producer_view().entry() == old(self).producer_view().entry(),
                same_graph(st0, self.processes@),
                self.order@ == old(self).order@,
                forall|j: int|
                    0 <= j < st0.len() ==> (#[trigger] self.processes@[j]).base_view().stats_view().queue_sizes@.len()
                        == st0[j].base_view().stats_view().queue_sizes@.len() + checks,
            decreases time + check_period - self.current_time,
        {
            let d = self.get_delta_time();
            let ghost s0 = states;
            let ghost o0 = offsets;
            let ghost here = *self;
            let ghost clock0 = self.current_time;
            proof {
                states = states.push(*self);
                offsets = offsets.push(period_time as nat);
            }
            let rest = check_period - period_time;
            let delta = if d < rest {
                d
            } else {
                rest
            };
            let ghost before = self.processes@;
            let _ = self.run(delta);
            proof {
                assert(self.current_time == clock0 + delta);
                assert forall|k: int|
                    0 <= k < states.len() implies {
                        let after = if k + 1 < states.len() {
                            states[k + 1].clock()
                        } else {
                            self.clock()
                        };
                        &&& #[trigger] offsets[k] < check_period
                        &&& exists|e: nat|
                            #[trigger] is_next_event(states[k], e) && after - states[k].clock() == if e
                                < check_period - offsets[k] {
                                e
                            } else {
                                (check_period - offsets[k]) as nat
                            }
                    } by {
                    if k + 1 < states.len() {
                        assert(states[k] == s0[k]);
                        assert(offsets[k] == o0[k]);
                        if k + 1 < s0.len() {
                            assert(states[k + 1] == s0[k + 1]);
                        }
                    } else {
                        assert(states[k] == here);
                        assert(is_next_event(here, d as nat));
                    }
                }
            }
            proof {
                assert forall|j: int| 0 <= j < st0.len() implies (#[trigger] self.processes@[j]).base_view().stats_view().queue_sizes@.len()
                    == st0[j].base_view().stats_view().queue_sizes@.len() + checks by {
                    assert(self.processes@[j].base_view().stats_view().queue_sizes == before[j].base_view().stats_view().queue_sizes);
                }
            }
            period_time = period_time + delta;
            if period_time == check_period {
                period_time = 0;
                let ghost before = self.processes@;
                self.measure_stats();
                proof {
                    assert(checks * check_period + check_period == (checks + 1) * check_period) by (nonlinear_arith);
                    checks = checks + 1;
                    assert forall|j: int| 0 <= j < st0.len() implies (#[trigger] self.processes@[j]).base_view().stats_view().queue_sizes@.len()
                        == st0[j].base_view().stats_view().queue_sizes@.len() + checks by {
                        assert(self.processes@[j].base_view().stats_view().queue_sizes@.len() == before[j].base_view().stats_view().queue_sizes@.len() + 1);
                    }
                }
            }
        }
        proof {
            vstd::arithmetic::div_mod::lemma_fundamental_div_mod_converse(
                self.current_time as int,
                check_period as int,
                checks as int,
                period_time as int,
            );
        }
        Ghost((states, offsets))
    }

    /// The number of stations.
    pub fn process_count(&self) -> (r: usize)
        ensures
            r == self.processes_view().len(),
    {
        self.processes.len()
    }

    /// The station that `h` names, if it is one of this model's.
    pub fn get_process(&self, h: SharedProcess) -> (r: Option<&ModelProcess>)
        ensures
            h.id < self.processes_view().len() ==> r == Some(&self.processes_view()[h.id as int]),
            h.id >= self.processes_view().len() ==> r is None,
    {
        if h.id < self.processes.len() {
            Some(&self.processes[h.id])
        } else {
            None
        }
    }

    /// Station indices in the order discovery found them.
    pub fn get_order(&self) -> (r: &Vec<usize>)
        ensures
            r@ == self.order_view(),
    {
        &self.order
    }

    /// The producer.
    pub fn get_producer(&self) -> (r: &ModelProducer)
        ensures
            *r == self.producer_view(),
    {
        &self.producer
    }

    /// Time simulated so far.
    pub fn get_time(&self) -> (r: u64)
        ensures
            r == self.clock(),
    {
        self.current_time
    }

    /// Whether a station's request counter filled up and stopped the run.
    pub fn is_halted(&self) -> (r: bool)
        ensures
            r == self.halted_view(),
    {
        self.halted
    }

    /// What `deliver` ensures, once the cascade ends at `cur`.
    proof fn lemma_deliver_end(
        &self,
        st0: Seq<ModelProcess>,
        start: int,
        tried: Seq<int>,
        cur: int,
        seen: Set<int>,
        fuel: nat,
    )
        requires
            0 <= cur < st0.len(),
            self.processes@.len() == st0.len(),
            !tried.contains(cur),
            tried + walk(st0, cur, seen, fuel) == cascade_path(st0, start),
            walk(st0, cur, seen, fuel) == seq![cur],
            forall|j: int| 0 <= j < st0.len() && !tried.contains(j) && j != cur ==> self.processes@[j] == st0[j],
            forall|k: int| 0 <= k < tried.len() ==> rejected(st0[#[trigger] tried[k]], self.processes@[tried[k]]),
        ensures
            ({
                let w = cascade_path(st0, start);
                &&& w[w.len() - 1] == cur
                &&& forall|j: int| 0 <= j < st0.len() && !w.contains(j) ==> self.processes@[j] == st0[j]
                &&& forall|k: int| 0 <= k < w.len() - 1 ==> rejected(st0[#[trigger] w[k]], self.processes@[w[k]])
            }),
    {
        let w = cascade_path(st0, start);
        assert(w =~= tried.push(cur));
        assert forall|j: int| 0 <= j < st0.len() && !w.contains(j) implies self.processes@[j] == st0[j] by {
            if tried.contains(j) {
                let k = choose|k: int| 0 <= k < tried.len() && tried[k] == j;
                assert(w[k] == j);
            }
            if j == cur {
                assert(w[w.len() - 1] == j);
            }
        }
        assert forall|k: int| 0 <= k < w.len() - 1 implies rejected(st0[#[trigger] w[k]], self.processes@[w[k]]) by {
            assert(w[k] == tried[k]);
        }
    }

    /// Station `i` changed only in its core, which is still well formed and
    /// has kept its timing.
    proof fn lemma_station_kept(&self, before: Seq<ModelProcess>, i: int, orig: ProcessBase)
        requires
            0 <= i < before.len(),
            self.processes@ == before.update(i, self.processes@[i]),
            before[i].wf(),
            before[i].base_view().devices_view().len() > 0,
            ProcessBase::kept_timing(orig, before[i].base_view()),
            self.processes@[i].base_view().wf(),
            self.processes@[i].sum_kept() == before[i].sum_kept(),
            self.processes@[i].next_view() == before[i].next_view(),
            ProcessBase::took_offer(before[i].base_view(), self.processes@[i].base_view(), true)
                || ProcessBase::took_offer(before[i].base_view(), self.processes@[i].base_view(), false),
        ensures
            self.processes@[i].wf(),
            self.processes@[i].base_view().devices_view().len() > 0,
            ProcessBase::kept_timing(orig, self.processes@[i].base_view()),
    {
        ProcessBase::lemma_kept_timing(orig, before[i].base_view(), self.processes@[i].base_view(), 0);
        ProcessBase::lemma_kept_timing(before[i].base_view(), self.processes@[i].base_view(), self.processes@[i].base_view(), 0);
        ProcessBase::lemma_kept_timing(orig, before[i].base_view(), self.processes@[i].base_view(), 0);
    }
}

} // verus!
