use async_bench::executor::Executor;
use async_bench::executor::SpawnError;
use async_bench::executor::EXECUTOR_QUEUE_SIZE;
use async_bench::travellers::TraversalTask;
use async_bench::workloads::ArrayList;

#[test]
fn default_queue_size_is_four() {
    assert_eq!(EXECUTOR_QUEUE_SIZE, 4);
}

#[test]
fn spawn_fills_slots_in_order() {
    let workloads: Vec<ArrayList> = (0..2).map(|_| ArrayList::new(3)).collect();
    let mut executor = Executor::new(2);
    let first = executor.spawn(TraversalTask::new(&workloads[0])).unwrap();
    let second = executor.spawn(TraversalTask::new(&workloads[1])).unwrap();
    assert_eq!(first.0, 0);
    assert_eq!(second.0, 1);
}

#[test]
fn spawn_beyond_capacity_reports_error_and_keeps_tasks() {
    let workloads: Vec<ArrayList> = (0..3).map(|_| ArrayList::new(10)).collect();
    let mut executor = Executor::new(2);
    assert!(executor.spawn(TraversalTask::new(&workloads[0])).is_ok());
    assert!(executor.spawn(TraversalTask::new(&workloads[1])).is_ok());
    let third = executor.spawn(TraversalTask::new(&workloads[2]));
    assert_eq!(third, Err(SpawnError::CapacityExceeded));
    // the two resident tasks were neither dropped nor overwritten
    let total = executor.run(&workloads);
    assert_eq!(total, 2 * 45);
}

#[test]
fn run_makes_exactly_one_poll_per_element_plus_one_per_task() {
    let workloads: Vec<ArrayList> = (0..3).map(|_| ArrayList::new(5)).collect();
    let mut executor = Executor::new(3);
    for w in workloads.iter() {
        executor.spawn(TraversalTask::new(w)).unwrap();
    }
    let total = executor.run(&workloads);
    assert_eq!(total, 3 * 10);
    assert_eq!(executor.polls, 3 * 5 + 3);
}

#[test]
fn run_on_single_element_structure_polls_twice() {
    let workloads: Vec<ArrayList> = vec![ArrayList::new(1)];
    let mut executor = Executor::new(1);
    executor.spawn(TraversalTask::new(&workloads[0])).unwrap();
    let total = executor.run(&workloads);
    assert_eq!(total, 0);
    assert_eq!(executor.polls, 2);
}

#[test]
fn run_skips_empty_slots() {
    let workloads: Vec<ArrayList> = (0..2).map(|_| ArrayList::new(4)).collect();
    let mut executor = Executor::new(5);
    executor.spawn(TraversalTask::new(&workloads[0])).unwrap();
    executor.spawn(TraversalTask::new(&workloads[1])).unwrap();
    let total = executor.run(&workloads);
    assert_eq!(total, 2 * 6);
    assert_eq!(executor.polls, 2 * 4 + 2);
    assert_eq!(executor.active, 0);
}
