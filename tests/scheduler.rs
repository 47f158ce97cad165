use kokoros::scheduler::{Action, ConfigError, OrderedScheduler, TaskOutcome};

#[derive(Debug, PartialEq)]
enum Sent {
    Audio(usize, Vec<u8>),
    Marker(usize),
}

/// Runs a scheduler to the end. `fails` lists the chunks whose inference fails; tasks
/// complete in the order that `pick` chooses among the running ones.
fn run(total: usize, workers: usize, fails: &[usize], pick: &dyn Fn(&[usize]) -> usize) -> (Vec<Sent>, usize, Vec<(usize, usize)>) {
    let mut s = OrderedScheduler::new(total, workers).unwrap();
    let mut running: Vec<usize> = Vec::new();
    let mut sent = Vec::new();
    let mut max_in_flight = 0;
    let mut in_flight = 0;
    let mut dispatches = Vec::new();
    loop {
        match s.next_action() {
            Action::Dispatch { id, worker } => {
                running.push(id);
                dispatches.push((id, worker));
                in_flight += 1;
                max_in_flight = max_in_flight.max(in_flight);
            }
            Action::Emit { id, pcm } => {
                in_flight -= 1;
                sent.push(Sent::Audio(id, pcm));
            }
            Action::Skip { .. } => {
                in_flight -= 1;
            }
            Action::Finish { id } => sent.push(Sent::Marker(id)),
            Action::Done => break,
            Action::Wait => {
                assert!(!running.is_empty());
                let k = pick(&running);
                let id = running.remove(k);
                let outcome = if fails.contains(&id) {
                    TaskOutcome::Failed
                } else {
                    TaskOutcome::Audio(vec![id as u8, 0])
                };
                assert!(s.on_complete(id, outcome));
            }
        }
    }
    (sent, max_in_flight, dispatches)
}

fn last(r: &[usize]) -> usize {
    r.len() - 1
}

fn first(_r: &[usize]) -> usize {
    0
}

#[test]
fn failed_chunk_is_skipped_and_the_rest_stay_in_order() {
    let (sent, _, _) = run(3, 2, &[1], &last);
    assert_eq!(sent, vec![Sent::Audio(0, vec![0, 0]), Sent::Audio(2, vec![2, 0]), Sent::Marker(3)]);
}

#[test]
fn emission_follows_chunk_order_for_every_pool_size() {
    for workers in 1..=6 {
        for pick in [&last as &dyn Fn(&[usize]) -> usize, &first] {
            let (sent, _, _) = run(6, workers, &[], pick);
            let expected: Vec<Sent> = (0..6)
                .map(|i| Sent::Audio(i, vec![i as u8, 0]))
                .chain(std::iter::once(Sent::Marker(6)))
                .collect();
            assert_eq!(sent, expected);
        }
    }
}

#[test]
fn in_flight_tasks_never_exceed_the_pool() {
    for workers in 1..=4 {
        let (_, max_in_flight, _) = run(10, workers, &[3, 4], &last);
        assert_eq!(max_in_flight, workers);
    }
}

#[test]
fn tasks_go_round_robin() {
    let (_, _, dispatches) = run(5, 2, &[], &first);
    assert_eq!(dispatches, vec![(0, 0), (1, 1), (2, 0), (3, 1), (4, 0)]);
}

#[test]
fn exactly_one_marker_comes_last() {
    let (sent, _, _) = run(4, 3, &[0, 3], &last);
    let markers: Vec<usize> = sent
        .iter()
        .enumerate()
        .filter(|(_, s)| matches!(s, Sent::Marker(_)))
        .map(|(i, _)| i)
        .collect();
    assert_eq!(markers, vec![sent.len() - 1]);
    assert_eq!(sent.last(), Some(&Sent::Marker(4)));
}

#[test]
fn all_failed_still_completes() {
    let (sent, _, _) = run(2, 1, &[0, 1], &first);
    assert_eq!(sent, vec![Sent::Marker(2)]);
}

#[test]
fn configuration_errors() {
    assert_eq!(OrderedScheduler::new(3, 0).err(), Some(ConfigError::NoWorkers));
    assert_eq!(OrderedScheduler::new(0, 2).err(), Some(ConfigError::NoChunks));
    assert_eq!(OrderedScheduler::new(0, 0).err(), Some(ConfigError::NoWorkers));
}

#[test]
fn completions_out_of_window_are_refused() {
    let mut s = OrderedScheduler::new(3, 1).unwrap();
    assert!(!s.on_complete(0, TaskOutcome::Failed));
    assert!(matches!(s.next_action(), Action::Dispatch { id: 0, worker: 0 }));
    assert!(matches!(s.next_action(), Action::Wait));
    assert!(!s.on_complete(1, TaskOutcome::Failed));
    assert!(s.on_complete(0, TaskOutcome::Audio(vec![7])));
    assert!(!s.on_complete(0, TaskOutcome::Failed));
    match s.next_action() {
        Action::Dispatch { .. } => panic!("window is full"),
        Action::Emit { id, pcm } => {
            assert_eq!(id, 0);
            assert_eq!(pcm, vec![7]);
        }
        _ => panic!("expected the first chunk"),
    }
    assert_eq!(s.total_chunks(), 3);
    assert_eq!(s.window_size(), 1);
}

#[test]
fn done_after_marker() {
    let mut s = OrderedScheduler::new(1, 1).unwrap();
    assert!(matches!(s.next_action(), Action::Dispatch { id: 0, worker: 0 }));
    assert!(s.on_complete(0, TaskOutcome::Audio(vec![])));
    assert!(matches!(s.next_action(), Action::Emit { id: 0, .. }));
    assert!(matches!(s.next_action(), Action::Finish { id: 1 }));
    assert!(matches!(s.next_action(), Action::Done));
    assert!(matches!(s.next_action(), Action::Done));
}

#[test]
fn disconnect_ends_the_loop() {
    let mut s = OrderedScheduler::new(3, 2).unwrap();
    assert!(matches!(s.next_action(), Action::Dispatch { id: 0, .. }));
    assert!(s.on_complete(0, TaskOutcome::Audio(vec![1])));
    s.on_disconnect();
    assert!(matches!(s.next_action(), Action::Done));
    assert!(matches!(s.next_action(), Action::Done));
}
