use async_bench::travellers::AsyncTraversal;
use async_bench::travellers::MemoryAccessFuture;
use async_bench::travellers::PollState;
use async_bench::travellers::SimpleTraversal;
use async_bench::travellers::Step;
use async_bench::travellers::TraversalTask;
use async_bench::travellers::Traveller;
use async_bench::workloads::ArrayList;

#[test]
fn memory_access_future_yields_exactly_once() {
    let mut fetch = MemoryAccessFuture::new();
    assert_eq!(fetch.poll(), PollState::Pending);
    assert_eq!(fetch.poll(), PollState::Ready);
    assert_eq!(fetch.poll(), PollState::Ready);
}

#[test]
fn task_over_one_element_takes_one_suspend_resume_pair() {
    let list = ArrayList::new(1);
    let mut task = TraversalTask::new(&list);
    assert_eq!(task.advance(&list), Step::Pending);
    assert_eq!(task.advance(&list), Step::Done(0));
}

#[test]
fn task_polls_once_per_element_plus_one() {
    let list = ArrayList::new(6);
    let mut task = TraversalTask::new(&list);
    let mut polls = 0u64;
    let total = loop {
        match task.advance(&list) {
            Step::Pending => polls += 1,
            Step::Done(s) => {
                polls += 1;
                break s;
            }
        }
    };
    assert_eq!(polls, 7);
    assert_eq!(total, 15);
}

#[test]
fn simple_traversal_sums_all_structures() {
    let workloads: Vec<ArrayList> = (0..4).map(|_| ArrayList::new(100)).collect();
    let mut traveller = SimpleTraversal;
    traveller.setup();
    let sum = traveller.traverse(&workloads);
    assert_eq!(sum, 4 * 4950);
}

#[test]
fn async_traversal_matches_simple_traversal() {
    for n in 1usize..=40 {
        let workloads: Vec<ArrayList> = (0..4).map(|_| ArrayList::new(n)).collect();
        let expected: u64 = workloads.iter().map(|w| w.ground_truth_sum()).sum();

        let mut sync_traveller = SimpleTraversal;
        let sync_sum = sync_traveller.traverse(&workloads);

        let mut async_traveller = AsyncTraversal::new();
        async_traveller.setup();
        let async_sum = async_traveller.traverse(&workloads);

        assert_eq!(sync_sum, expected, "sequential sum wrong (n = {})", n);
        assert_eq!(async_sum, sync_sum, "strategies disagree (n = {})", n);
    }
}

#[test]
fn traveller_names() {
    assert_eq!(SimpleTraversal.get_name(), "SimpleTraversal");
    assert_eq!(AsyncTraversal::new().get_name(), "AsyncTraversal");
}

#[test]
fn end_to_end_four_structures_of_a_million() {
    let workloads: Vec<ArrayList> = (0..4).map(|_| ArrayList::new(1_000_000)).collect();
    assert_eq!(workloads[0].ground_truth_sum(), 499_999_500_000);

    let mut sync_traveller = SimpleTraversal;
    let sync_sum = sync_traveller.traverse(&workloads);
    assert_eq!(sync_sum, 1_999_998_000_000);

    let mut async_traveller = AsyncTraversal::new();
    let async_sum = async_traveller.traverse(&workloads);
    assert_eq!(async_sum, 1_999_998_000_000);
}
