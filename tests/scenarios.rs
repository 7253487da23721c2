use imitation_modeling::implementation::{ModelProcess, ModelProducer};
use imitation_modeling::modeling::device::{Device, DeviceRand};
use imitation_modeling::modeling::process::SharedProcess;
use imitation_modeling::modeling::{Model, ModelConstructor};

fn station(model: &mut ModelConstructor, capacity: usize, rand: DeviceRand) -> SharedProcess {
    let p = model.add_process(ModelProcess::new(capacity));
    model.add_device(p, Device::new(rand)).unwrap();
    p
}

/// Every station's offered jobs were turned away, completed, are waiting or in service.
fn assert_conserved(m: &Model) {
    for id in 0..m.process_count() {
        let base = m.get_process(SharedProcess::new(id)).unwrap().get_base();
        let stats = base.get_stats();
        let busy = base
            .get_devices()
            .iter()
            .filter(|d| d.get_work_time().is_some())
            .count() as u64;
        assert_eq!(
            stats.requests_number,
            stats.failures + stats.processed + base.get_queue_size() as u64 + busy
        );
        assert!(base.get_queue_size() <= base.get_queue_capacity());
    }
}

#[test]
fn simple_test() {
    for i in 2..=10u64 {
        for j in 2..=10u64 {
            for k in 0..=20usize {
                let mut model = ModelConstructor::new();
                let proc1 = station(&mut model, k, DeviceRand::Uniform(1, i));
                model.set_producer(ModelProducer::new(proc1, DeviceRand::Uniform(2, 3)));
                let m = Model::simulate(10000, j, model).unwrap();
                assert_conserved(&m);
            }
        }
    }
}

#[test]
fn next_test() {
    for i in 2..=10u64 {
        for j in 2..=10u64 {
            for k in 0..=20usize {
                let mut model = ModelConstructor::new();
                let proc1 = station(&mut model, k, DeviceRand::Uniform(1, i));
                let proc2 = station(&mut model, k, DeviceRand::Uniform(1, i));
                let proc3 = station(&mut model, k, DeviceRand::Uniform(1, i));
                model.add_next(proc1, proc2, 2).unwrap();
                model.add_next(proc1, proc3, 1).unwrap();
                model.set_producer(ModelProducer::new(proc1, DeviceRand::Uniform(2, 3)));
                let m = Model::simulate(10000, j, model).unwrap();
                assert_conserved(&m);
            }
        }
    }
}

#[test]
fn failure_test1() {
    for i in 2..=10u64 {
        for j in 2..=10u64 {
            for k in 0..=20usize {
                let mut model = ModelConstructor::new();
                let proc1 = station(&mut model, k, DeviceRand::Uniform(1, i));
                let proc2 = station(&mut model, k, DeviceRand::Uniform(100, 1000));
                let proc3 = station(&mut model, k, DeviceRand::Uniform(1, i));
                model.add_next(proc1, proc2, 1).unwrap();
                model.add_next(proc2, proc3, 1).unwrap();
                model.set_if_failure(proc1, proc2).unwrap();
                model.set_if_failure(proc2, proc3).unwrap();
                model.set_if_failure(proc3, proc1).unwrap();
                model.set_producer(ModelProducer::new(proc1, DeviceRand::Uniform(2, 3)));
                let m = Model::simulate(10000, j, model).unwrap();
                assert_conserved(&m);
            }
        }
    }
}

#[test]
fn failure_test2() {
    let mut model = ModelConstructor::new();
    let proc1 = station(&mut model, 2, DeviceRand::Uniform(10, 100));
    let proc2 = station(&mut model, 2, DeviceRand::Uniform(10, 100));
    let proc3 = station(&mut model, 2, DeviceRand::Uniform(10, 100));
    let proc4 = station(&mut model, 2, DeviceRand::Uniform(10, 100));
    let proc5 = station(&mut model, 2, DeviceRand::Uniform(10, 100));
    let proc6 = station(&mut model, 2, DeviceRand::Uniform(10, 100));
    model.add_next(proc1, proc2, 1).unwrap();
    model.set_if_failure(proc2, proc1).unwrap();
    model.set_if_failure(proc1, proc3).unwrap();
    model.set_if_failure(proc3, proc4).unwrap();
    model.set_if_failure(proc4, proc5).unwrap();
    model.set_if_failure(proc5, proc6).unwrap();
    model.set_if_failure(proc6, proc1).unwrap();
    model.set_producer(ModelProducer::new(proc1, DeviceRand::Uniform(1, 2)));
    let m = Model::simulate(10000, 100, model).unwrap();
    assert_conserved(&m);
}

#[test]
#[should_panic]
fn self_next_test() {
    for i in 2..=10u64 {
        for j in 2..=10u64 {
            for k in 0..=20usize {
                let mut model = ModelConstructor::new();
                let proc1 = station(&mut model, k, DeviceRand::Uniform(1, i));
                model.add_next(proc1, proc1, 1).unwrap();
                model.set_producer(ModelProducer::new(proc1, DeviceRand::Uniform(2, 3)));
                Model::simulate(1000, j, model).unwrap();
            }
        }
    }
}

#[test]
#[should_panic]
fn self_failure_test() {
    for i in 2..=10u64 {
        for j in 2..=10u64 {
            for k in 0..=20usize {
                let mut model = ModelConstructor::new();
                let proc1 = station(&mut model, k, DeviceRand::Uniform(1, i));
                model.set_if_failure(proc1, proc1).unwrap();
                model.set_producer(ModelProducer::new(proc1, DeviceRand::Uniform(2, 3)));
                Model::simulate(1000, j, model).unwrap();
            }
        }
    }
}

#[test]
fn task12() {
    let mut model = ModelConstructor::new();
    let proc1 = station(&mut model, 10, DeviceRand::Uniform(1, 4));
    model.set_producer(ModelProducer::new(proc1, DeviceRand::Uniform(2, 3)));
    let m = Model::simulate(1000, 10, model).unwrap();
    assert_conserved(&m);
}

fn task34_sample(q_len: usize, min_work_time: u64, max_work_time: u64) {
    let mut model = ModelConstructor::new();
    let proc1 = station(&mut model, q_len, DeviceRand::Uniform(min_work_time, max_work_time));
    let proc2 = station(&mut model, q_len, DeviceRand::Uniform(min_work_time, max_work_time));
    let proc3 = station(&mut model, q_len, DeviceRand::Uniform(min_work_time, max_work_time));
    model.add_next(proc1, proc2, 1).unwrap();
    model.add_next(proc2, proc3, 1).unwrap();
    model.set_producer(ModelProducer::new(proc1, DeviceRand::Uniform(2, 3)));
    let m = Model::simulate(1000, 10, model).unwrap();
    assert_conserved(&m);
}

#[test]
fn task34() {
    task34_sample(5, 1, 6);
    task34_sample(5, 1, 5);
    task34_sample(10, 1, 5);
    task34_sample(10, 1, 4);
}

#[test]
fn task5() {
    let mut model = ModelConstructor::new();
    let proc1 = station(&mut model, 10, DeviceRand::Uniform(1, 4));
    model.add_device(proc1, Device::new(DeviceRand::Uniform(1, 4))).unwrap();
    let proc2 = station(&mut model, 10, DeviceRand::Uniform(1, 4));
    model.add_next(proc1, proc2, 1).unwrap();
    model.set_producer(ModelProducer::new(proc1, DeviceRand::Uniform(2, 3)));
    let m = Model::simulate(1000, 1, model).unwrap();
    assert_conserved(&m);
}

#[test]
fn task6() {
    let mut model = ModelConstructor::new();
    let proc1 = station(&mut model, 10, DeviceRand::Uniform(1, 4));
    let proc2 = station(&mut model, 10, DeviceRand::Uniform(10, 20));
    let proc3 = station(&mut model, 10, DeviceRand::Uniform(1, 4));
    model.add_next(proc1, proc2, 75).unwrap();
    model.add_next(proc1, proc3, 25).unwrap();
    model.set_if_failure(proc2, proc1).unwrap();
    model.set_producer(ModelProducer::new(proc1, DeviceRand::Uniform(2, 3)));
    let m = Model::simulate(1000, 1, model).unwrap();
    assert_conserved(&m);
}
