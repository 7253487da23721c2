use imitation_modeling::implementation::{ModelProcess, ModelProducer};
use imitation_modeling::modeling::device::{Device, DeviceRand};
use imitation_modeling::modeling::process::SharedProcess;
use imitation_modeling::modeling::{ConfigError, Model, ModelConstructor};

fn station(model: &mut ModelConstructor, capacity: usize, rand: DeviceRand) -> SharedProcess {
    let p = model.add_process(ModelProcess::new(capacity));
    model.add_device(p, Device::new(rand)).unwrap();
    p
}

fn stats_of(m: &Model, h: SharedProcess) -> (u64, u64, u64, usize) {
    let base = m.get_process(h).unwrap().get_base();
    let s = base.get_stats();
    (s.requests_number, s.failures, s.processed, base.get_queue_size())
}

#[test]
fn single_station_fixed_rates() {
    let mut model = ModelConstructor::new();
    let a = station(&mut model, usize::MAX, DeviceRand::Fixed(1));
    model.set_producer(ModelProducer::new(a, DeviceRand::Fixed(1)));
    let m = Model::simulate(10, 10, model).unwrap();
    let (offered, rejected, completed, queued) = stats_of(&m, a);
    assert_eq!(m.get_producer().get_produced(), 10);
    assert_eq!(offered, 10);
    assert_eq!(rejected, 0);
    assert_eq!(queued, 0);
    // The tenth arrival comes at the last instant and is still in service.
    assert_eq!(completed, 9);
    let device = m.get_process(a).unwrap().get_base().get_devices()[0].get_stats();
    assert_eq!(device.total_time, 10);
    assert_eq!(device.busy_time, 9);
    assert_eq!(device.processed, 9);
    assert!(device.busy_time as f64 / device.total_time as f64 >= 0.9);
}

#[test]
fn no_queue_slow_service_rejects() {
    let mut model = ModelConstructor::new();
    let a = station(&mut model, 0, DeviceRand::Fixed(10));
    model.set_producer(ModelProducer::new(a, DeviceRand::Fixed(1)));
    let m = Model::simulate(10, 10, model).unwrap();
    let (offered, rejected, completed, queued) = stats_of(&m, a);
    assert_eq!(offered, 10);
    assert_eq!(rejected, 9);
    assert_eq!(completed, 0);
    assert_eq!(queued, 0);
}

#[test]
fn overflow_returns_to_failure_target() {
    let mut model = ModelConstructor::new();
    let a = station(&mut model, 100, DeviceRand::Fixed(1));
    let b = station(&mut model, 0, DeviceRand::Fixed(100000));
    model.add_next(a, b, 1).unwrap();
    model.set_if_failure(b, a).unwrap();
    model.set_producer(ModelProducer::new(a, DeviceRand::Fixed(5)));
    let m = Model::simulate(100, 10, model).unwrap();
    let produced = m.get_producer().get_produced();
    let (a_offered, a_rejected, _, _) = stats_of(&m, a);
    let (b_offered, b_rejected, _, _) = stats_of(&m, b);
    assert_eq!(produced, 20);
    assert!(a_offered > produced);
    assert_eq!(a_rejected, 0);
    assert_eq!(b_rejected, b_offered - 1);
    assert_eq!(a_offered, produced + b_rejected);
}

#[test]
fn cascade_through_full_cycle_terminates() {
    let mut model = ModelConstructor::new();
    let s1 = station(&mut model, 0, DeviceRand::Fixed(1000));
    let s2 = station(&mut model, 0, DeviceRand::Fixed(1000));
    let s3 = station(&mut model, 0, DeviceRand::Fixed(1000));
    model.set_if_failure(s1, s2).unwrap();
    model.set_if_failure(s2, s3).unwrap();
    model.set_if_failure(s3, s1).unwrap();
    model.set_producer(ModelProducer::new(s1, DeviceRand::Fixed(1)));
    let m = Model::simulate(10, 5, model).unwrap();
    // Arrivals 1, 2 and 3 fill the three stations; each later one is offered
    // to each station once along the cycle and lost.
    assert_eq!(stats_of(&m, s1), (10, 9, 0, 0));
    assert_eq!(stats_of(&m, s2), (9, 8, 0, 0));
    assert_eq!(stats_of(&m, s3), (8, 7, 0, 0));
    assert!(!m.is_halted());
}

#[test]
fn self_edges_are_refused() {
    let mut model = ModelConstructor::new();
    let a = station(&mut model, 1, DeviceRand::Fixed(1));
    assert_eq!(model.add_next(a, a, 1), Err(ConfigError::SelfSuccessor));
    assert_eq!(model.set_if_failure(a, a), Err(ConfigError::SelfFailure));
}

#[test]
fn configuration_errors() {
    let mut model = ModelConstructor::new();
    let a = station(&mut model, 1, DeviceRand::Fixed(1));
    let b = station(&mut model, 1, DeviceRand::Fixed(1));
    let ghost = SharedProcess::new(7);
    assert_eq!(model.add_next(a, ghost, 1), Err(ConfigError::UnknownStation));
    assert_eq!(model.set_if_failure(ghost, a), Err(ConfigError::UnknownStation));
    assert_eq!(model.add_device(ghost, Device::new(DeviceRand::Fixed(1))), Err(ConfigError::UnknownStation));
    assert_eq!(model.add_next(a, b, 0), Err(ConfigError::ZeroWeight));
    assert_eq!(Model::simulate(10, 1, model).err(), Some(ConfigError::NoProducer));

    let mut model = ModelConstructor::new();
    let a = station(&mut model, 1, DeviceRand::Fixed(1));
    let _b = station(&mut model, 1, DeviceRand::Fixed(1));
    model.set_producer(ModelProducer::new(a, DeviceRand::Fixed(1)));
    assert_eq!(Model::simulate(10, 1, model).err(), Some(ConfigError::Unreachable));

    let mut model = ModelConstructor::new();
    let a = model.add_process(ModelProcess::new(1));
    model.set_producer(ModelProducer::new(a, DeviceRand::Fixed(1)));
    assert_eq!(Model::simulate(10, 1, model).err(), Some(ConfigError::NoDevices));

    let mut model = ModelConstructor::new();
    let _a = station(&mut model, 1, DeviceRand::Fixed(1));
    model.set_producer(ModelProducer::new(SharedProcess::new(3), DeviceRand::Fixed(1)));
    assert_eq!(Model::simulate(10, 1, model).err(), Some(ConfigError::UnknownStation));
}

#[test]
fn duplicate_successor_is_ignored() {
    let mut p = ModelProcess::new(0);
    assert!(p.add_next(SharedProcess::new(1), 3));
    assert!(!p.add_next(SharedProcess::new(1), 5));
    assert_eq!(p.get_all_next(), vec![SharedProcess::new(1)]);
    assert_eq!(p.get_total_weight(), 3);
}

#[test]
fn pick_next_follows_weight_shares() {
    let mut p = ModelProcess::new(0);
    p.add_next(SharedProcess::new(1), 2);
    p.add_next(SharedProcess::new(2), 1);
    assert_eq!(p.pick_next(0), SharedProcess::new(1));
    assert_eq!(p.pick_next(1), SharedProcess::new(1));
    assert_eq!(p.pick_next(2), SharedProcess::new(2));
}

#[test]
fn weighted_routing_frequencies() {
    let mut p = ModelProcess::new(0);
    p.add_next(SharedProcess::new(1), 3);
    p.add_next(SharedProcess::new(2), 1);
    let trials = 40000;
    let mut first = 0;
    for _ in 0..trials {
        match p.get_next() {
            Some(h) if h == SharedProcess::new(1) => first += 1,
            Some(h) => assert_eq!(h, SharedProcess::new(2)),
            None => panic!("a station with successors routes somewhere"),
        }
    }
    let share = first as f64 / trials as f64;
    assert!((share - 0.75).abs() < 0.02, "share {}", share);
}

#[test]
fn routing_edge_cases() {
    let p = ModelProcess::new(0);
    assert_eq!(p.get_next(), None);
    let mut q = ModelProcess::new(0);
    q.add_next(SharedProcess::new(4), 9);
    for _ in 0..10 {
        assert_eq!(q.get_next(), Some(SharedProcess::new(4)));
    }
}

#[test]
fn uniform_draws_vary_within_bounds() {
    let d = DeviceRand::Uniform(1, 1000);
    let mut above_low = false;
    for _ in 0..200 {
        let v = d.next_rand();
        assert!((1..=1000).contains(&v));
        if v > 1 {
            above_low = true;
        }
    }
    assert!(above_low);
}

#[test]
fn distribution_values() {
    assert_eq!(DeviceRand::Fixed(7).next_rand(), 7);
    let mixed = DeviceRand::Mixed(vec![DeviceRand::Fixed(2), DeviceRand::Fixed(3)]);
    assert_eq!(mixed.next_rand(), 5);
    let m2 = DeviceRand::Mixed(vec![DeviceRand::Fixed(2), DeviceRand::Uniform(1, 3)]);
    for _ in 0..50 {
        let v = m2.next_rand();
        assert!((3..=5).contains(&v));
    }
    let e = DeviceRand::Exponential(4);
    let mut total: u64 = 0;
    for _ in 0..4000 {
        let v = e.next_rand();
        assert!((1..=4 * 64).contains(&v));
        total += v;
    }
    let mean = total as f64 / 4000.0;
    assert!(mean > 3.0 && mean < 5.0, "mean {}", mean);
}

#[test]
fn device_cycle() {
    let mut d = Device::new(DeviceRand::Fixed(5));
    assert_eq!(d.get_work_time(), None);
    d.wait(3);
    d.process();
    assert_eq!(d.get_work_time(), Some(5));
    d.run(2);
    assert_eq!(d.get_work_time(), Some(3));
    d.run(4);
    assert_eq!(d.get_work_time(), None);
    let s = d.get_stats();
    assert_eq!((s.busy_time, s.total_time, s.processed), (5, 9, 1));
}

#[test]
fn checkpoints_record_queue_lengths() {
    let mut model = ModelConstructor::new();
    let a = station(&mut model, 5, DeviceRand::Fixed(3));
    model.set_producer(ModelProducer::new(a, DeviceRand::Fixed(1)));
    let m = Model::simulate(12, 4, model).unwrap();
    assert_eq!(m.get_time(), 12);
    let s = m.get_process(a).unwrap().get_base().get_stats();
    assert_eq!(s.queue_sizes.len(), 3);
    assert_eq!(m.get_order(), &vec![0]);
}

#[test]
fn discovery_order_puts_failure_target_first() {
    let mut model = ModelConstructor::new();
    let a = station(&mut model, 1, DeviceRand::Fixed(1));
    let b = station(&mut model, 1, DeviceRand::Fixed(1));
    let c = station(&mut model, 1, DeviceRand::Fixed(1));
    model.set_if_failure(a, c).unwrap();
    model.add_next(a, b, 1).unwrap();
    model.set_producer(ModelProducer::new(a, DeviceRand::Fixed(1)));
    let m = Model::simulate(1, 1, model).unwrap();
    assert_eq!(m.get_order(), &vec![2, 0, 1]);
}

#[test]
fn deliver_walks_the_failure_cycle_once() {
    let mut model = ModelConstructor::new();
    let s1 = station(&mut model, 0, DeviceRand::Fixed(50));
    let s2 = station(&mut model, 0, DeviceRand::Fixed(50));
    let s3 = station(&mut model, 0, DeviceRand::Fixed(50));
    model.set_if_failure(s1, s2).unwrap();
    model.set_if_failure(s2, s3).unwrap();
    model.set_if_failure(s3, s1).unwrap();
    model.set_producer(ModelProducer::new(s1, DeviceRand::Fixed(1)));
    let mut m = model.construct().unwrap();
    assert!(m.deliver(0));
    assert!(m.deliver(0));
    assert!(m.deliver(0));
    assert_eq!(stats_of(&m, s1), (3, 2, 0, 0));
    assert_eq!(stats_of(&m, s2), (2, 1, 0, 0));
    assert_eq!(stats_of(&m, s3), (1, 0, 0, 0));
    // Every station is full now: the job is offered to each once and lost.
    assert!(!m.deliver(1));
    assert_eq!(stats_of(&m, s1), (4, 3, 0, 0));
    assert_eq!(stats_of(&m, s2), (3, 2, 0, 0));
    assert_eq!(stats_of(&m, s3), (2, 1, 0, 0));
}

#[test]
fn producer_counts_every_arrival_in_a_long_step() {
    let mut p = ModelProducer::new(SharedProcess::new(0), DeviceRand::Fixed(2));
    assert_eq!(p.get_time(), 2);
    assert_eq!(p.run(1), 0);
    assert_eq!(p.get_time(), 1);
    assert_eq!(p.run(7), 4);
    assert_eq!(p.get_produced(), 4);
    assert_eq!(p.get_time(), 2);
    assert_eq!(p.run(2), 1);
    assert_eq!(p.get_produced(), 5);
}
