use preimage_search::digest::{digest, simple_hash};
use preimage_search::driver::{
    search, Action, Config, Driver, Event, Outcome, Phase, SearchError, SearchReport,
};
use preimage_search::evaluator::run_batch;
use preimage_search::space::SearchSpace;

fn sizes(capacity: u32, workers_per_group: u32) -> Config {
    Config { capacity, workers_per_group, max_grid_columns: 65_535 }
}

fn hex_space() -> SearchSpace {
    SearchSpace::new(b"0123456789abcdef".to_vec(), 1).unwrap()
}

fn quad_space() -> SearchSpace {
    SearchSpace::new(b"ab".to_vec(), 2).unwrap()
}

#[test]
fn standard_config() {
    let config = Config::standard();
    assert_eq!(config.capacity, 16_777_216);
    assert_eq!(config.workers_per_group, 64);
    assert_eq!(config.max_grid_columns, 65_535);
    assert!(config.is_usable());
}

#[test]
fn unusable_configs() {
    assert!(!sizes(0, 64).is_usable());
    assert!(!sizes(16, 0).is_usable());
    assert!(!Config { capacity: 16, workers_per_group: 4, max_grid_columns: 0 }.is_usable());
    assert!(!Config { capacity: u32::MAX, workers_per_group: 2, max_grid_columns: u32::MAX }
        .is_usable());
    assert!(Driver::new(hex_space(), 0, sizes(0, 64)).is_none());
    assert_eq!(search(hex_space(), 0, sizes(0, 64)), None);
}

#[test]
fn driver_starts_idle_at_zero() {
    let driver = Driver::new(hex_space(), 77, sizes(16, 4)).unwrap();
    assert_eq!(driver.phase(), Phase::Idle);
    assert_eq!(driver.offset(), 0);
    assert_eq!(driver.target(), 77);
    assert_eq!(driver.config(), sizes(16, 4));
    assert_eq!(driver.space().total(), 16);
}

#[test]
fn start_dispatches_the_first_batch() {
    let mut driver = Driver::new(SearchSpace::base62(), 99, Config::standard()).unwrap();
    match driver.step(Event::Start) {
        Action::Dispatch { plan, params } => {
            assert_eq!(plan.start_offset, 0);
            assert_eq!(plan.capacity, 16_777_216);
            assert_eq!((plan.grid_columns, plan.grid_rows, plan.stride), (65_535, 5, 4_194_240));
            assert_eq!(params.target, 99);
            assert_eq!(params.capacity, 16_777_216);
            assert_eq!(params.stride, 4_194_240);
            assert_eq!(params.start_digits, vec![0; 8]);
        }
        other => panic!("unexpected action {:?}", other),
    }
    assert_eq!(driver.phase(), Phase::Dispatching);
}

#[test]
fn submitted_batch_is_awaited() {
    let mut driver = Driver::new(hex_space(), 1, sizes(4, 2)).unwrap();
    driver.step(Event::Start);
    assert!(matches!(driver.step(Event::Submitted), Action::Await));
    assert_eq!(driver.phase(), Phase::AwaitingResult);
    assert_eq!(driver.offset(), 0);
}

#[test]
fn empty_batch_advances_by_the_capacity() {
    let mut driver = Driver::new(hex_space(), 1, sizes(4, 2)).unwrap();
    driver.step(Event::Start);
    driver.step(Event::Submitted);
    match driver.step(Event::Completed { flag: 0, digits: vec![0] }) {
        Action::Dispatch { plan, params } => {
            assert_eq!(plan.start_offset, 4);
            assert_eq!(params.start_digits, vec![4]);
        }
        other => panic!("unexpected action {:?}", other),
    }
    assert_eq!(driver.phase(), Phase::Dispatching);
    assert_eq!(driver.offset(), 4);
}

#[test]
fn set_flag_ends_the_search_with_the_decoded_candidate() {
    let mut driver = Driver::new(SearchSpace::base62(), 1, Config::standard()).unwrap();
    driver.step(Event::Start);
    driver.step(Event::Submitted);
    let action = driver.step(Event::Completed { flag: 1, digits: vec![2, 34, 39, 29, 50, 0, 0, 0] });
    match action {
        Action::Report(Outcome::Found { digits, preimage }) => {
            assert_eq!(digits, vec![2, 34, 39, 29, 50, 0, 0, 0]);
            assert_eq!(preimage, "CindyAAA");
        }
        other => panic!("unexpected action {:?}", other),
    }
    assert_eq!(driver.phase(), Phase::Found);
}

#[test]
fn any_nonzero_flag_counts_as_found() {
    let mut driver = Driver::new(hex_space(), 1, sizes(16, 4)).unwrap();
    driver.step(Event::Start);
    driver.step(Event::Submitted);
    let action = driver.step(Event::Completed { flag: 7, digits: vec![10] });
    assert!(matches!(action, Action::Report(Outcome::Found { .. })));
}

#[test]
fn undecodable_result_is_a_transfer_failure() {
    for digits in [vec![16u32], vec![], vec![1, 2]] {
        let mut driver = Driver::new(hex_space(), 1, sizes(16, 4)).unwrap();
        driver.step(Event::Start);
        driver.step(Event::Submitted);
        let action = driver.step(Event::Completed { flag: 1, digits });
        assert!(matches!(
            action,
            Action::Report(Outcome::Failed(SearchError::TransferFailure))
        ));
        assert_eq!(driver.phase(), Phase::Failed);
    }
}

#[test]
fn last_empty_batch_exhausts_the_space() {
    let mut driver = Driver::new(hex_space(), 1, sizes(12, 4)).unwrap();
    driver.step(Event::Start);
    driver.step(Event::Submitted);
    assert!(matches!(
        driver.step(Event::Completed { flag: 0, digits: vec![0] }),
        Action::Dispatch { .. }
    ));
    assert_eq!(driver.offset(), 12);
    driver.step(Event::Submitted);
    assert!(matches!(
        driver.step(Event::Completed { flag: 0, digits: vec![0] }),
        Action::Report(Outcome::Exhausted)
    ));
    assert_eq!(driver.phase(), Phase::Exhausted);
}

#[test]
fn faults_abort_from_every_phase_under_way() {
    for (steps, fault) in [
        (0, SearchError::DeviceUnavailable),
        (1, SearchError::KernelCompilationFailure),
        (2, SearchError::TransferFailure),
    ] {
        let mut driver = Driver::new(hex_space(), 1, sizes(4, 2)).unwrap();
        if steps >= 1 {
            driver.step(Event::Start);
        }
        if steps >= 2 {
            driver.step(Event::Submitted);
        }
        match driver.step(Event::Fault(fault)) {
            Action::Report(Outcome::Failed(reported)) => assert_eq!(reported, fault),
            other => panic!("unexpected action {:?}", other),
        }
        assert_eq!(driver.phase(), Phase::Failed);
    }
}

#[test]
fn events_out_of_turn_are_ignored() {
    let mut driver = Driver::new(hex_space(), 1, sizes(4, 2)).unwrap();
    assert!(matches!(driver.step(Event::Submitted), Action::Ignore));
    assert!(matches!(
        driver.step(Event::Completed { flag: 1, digits: vec![3] }),
        Action::Ignore
    ));
    assert_eq!(driver.phase(), Phase::Idle);
    driver.step(Event::Start);
    assert!(matches!(driver.step(Event::Start), Action::Ignore));
    assert_eq!(driver.phase(), Phase::Dispatching);
    driver.step(Event::Submitted);
    assert!(matches!(driver.step(Event::Submitted), Action::Ignore));
    assert_eq!(driver.phase(), Phase::AwaitingResult);
    assert_eq!(driver.offset(), 0);
}

#[test]
fn nothing_moves_a_finished_search() {
    let mut driver = Driver::new(hex_space(), 1, sizes(16, 4)).unwrap();
    driver.step(Event::Start);
    driver.step(Event::Submitted);
    driver.step(Event::Completed { flag: 0, digits: vec![0] });
    assert_eq!(driver.phase(), Phase::Exhausted);
    for event in [
        Event::Start,
        Event::Submitted,
        Event::Completed { flag: 1, digits: vec![1] },
        Event::Fault(SearchError::DeviceUnavailable),
    ] {
        assert!(matches!(driver.step(event), Action::Ignore));
        assert_eq!(driver.phase(), Phase::Exhausted);
    }
}

#[test]
fn finds_symbol_five_in_the_first_batch() {
    for capacity in [16u32, 17, 64, 1000] {
        let report = search(hex_space(), digest(b"5"), sizes(capacity, 4)).unwrap();
        assert_eq!(
            report,
            SearchReport {
                outcome: Outcome::Found { digits: vec![5], preimage: "5".to_string() },
                batches: 1,
            }
        );
    }
}

#[test]
fn finds_in_a_later_batch() {
    let report = search(hex_space(), digest(b"d"), sizes(4, 2)).unwrap();
    assert_eq!(report.batches, 4);
    assert_eq!(report.outcome, Outcome::Found { digits: vec![13], preimage: "d".to_string() });
}

#[test]
fn exhausts_a_space_of_four_after_four_candidates() {
    // No string of two symbols over {a, b} has the digest of "zz".
    let target = digest(b"zz");
    for word in [b"aa", b"ba", b"ab", b"bb"] {
        assert_ne!(digest(word), target);
    }
    let whole = search(quad_space(), target, sizes(4, 4)).unwrap();
    assert_eq!(whole, SearchReport { outcome: Outcome::Exhausted, batches: 1 });
    let halves = search(quad_space(), target, sizes(2, 2)).unwrap();
    assert_eq!(halves, SearchReport { outcome: Outcome::Exhausted, batches: 2 });
    let singles = search(quad_space(), target, sizes(1, 1)).unwrap();
    assert_eq!(singles, SearchReport { outcome: Outcome::Exhausted, batches: 4 });
}

#[test]
fn exhaustion_counts_the_last_partial_batch() {
    let report = search(quad_space(), digest(b"zz"), sizes(3, 1)).unwrap();
    assert_eq!(report, SearchReport { outcome: Outcome::Exhausted, batches: 2 });
}

#[test]
fn search_reports_the_least_index_of_several_preimages() {
    // Over {"!", "@"} with length 2 and this digest, 31 * a + b decides: distinct
    // words have distinct digests, so take an alphabet where two words collide:
    // 31 * 33 + 64 == 31 * 34 + 33 ("!@" and "\"!").
    let space = SearchSpace::new(b"!\"@".to_vec(), 2).unwrap();
    assert_eq!(digest(b"!@"), digest(b"\"!"));
    let report = search(space, digest(b"!@"), sizes(9, 3)).unwrap();
    // "\"!" has digits [1, 0] and index 1; "!@" has digits [0, 2] and index 6.
    assert_eq!(report.outcome, Outcome::Found { digits: vec![1, 0], preimage: "\"!".to_string() });
}

#[test]
fn engine_reports_a_preimage_of_cindy() {
    // Batches of 2^16: the batch with number 171168 holds the least preimage. The
    // batches before it are reported empty without being run.
    let space = SearchSpace::base62();
    let target = simple_hash("Cindy");
    let mut driver = Driver::new(space, target, sizes(65_536, 64)).unwrap();
    let mut action = driver.step(Event::Start);
    for _ in 0..171_168 {
        assert!(matches!(driver.step(Event::Submitted), Action::Await));
        action = driver.step(Event::Completed { flag: 0, digits: vec![0; 8] });
    }
    assert_eq!(driver.offset(), 171_168 * 65_536);
    let plan = match action {
        Action::Dispatch { plan, .. } => plan,
        other => panic!("unexpected action {:?}", other),
    };
    driver.step(Event::Submitted);
    let result = run_batch(driver.space(), target, &plan);
    assert!(result.found);
    let flag = if result.found { 1 } else { 0 };
    match driver.step(Event::Completed { flag, digits: result.digits }) {
        Action::Report(Outcome::Found { digits, preimage }) => {
            assert_eq!(preimage.len(), 8);
            assert_eq!(simple_hash(&preimage), target);
            assert_eq!(preimage, "aISKPMAA");
            assert_eq!(digits, vec![26, 8, 18, 10, 15, 12, 0, 0]);
        }
        other => panic!("unexpected action {:?}", other),
    }
    assert_eq!(driver.phase(), Phase::Found);
}
