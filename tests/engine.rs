use pn_sim::counter::{Counter, CounterState};
use pn_sim::engine::{PnAlgorithm, PnGraph};
use pn_sim::topology::is_symmetric;

fn ring4() -> Vec<Vec<(usize, usize)>> {
    vec![
        vec![(1, 1), (3, 0)],
        vec![(2, 1), (0, 0)],
        vec![(3, 1), (1, 0)],
        vec![(0, 1), (2, 0)],
    ]
}

#[test]
fn ring_is_symmetric() {
    assert!(is_symmetric(&ring4()));
    assert!(is_symmetric(&vec![]));
    assert!(is_symmetric(&vec![vec![(1, 0)], vec![(0, 0)]]));
}

#[test]
fn broken_links_are_not_symmetric() {
    assert!(!is_symmetric(&vec![vec![(1, 0)], vec![(0, 1)]]));
    assert!(!is_symmetric(&vec![vec![(1, 0)], vec![]]));
    assert!(!is_symmetric(&vec![vec![(2, 0)], vec![(0, 0)]]));
    assert!(!is_symmetric(&vec![vec![(1, 0)], vec![(0, 0)], vec![(1, 0)]]));
}

#[test]
fn counter_token_advances_one_position() {
    let mut g: PnGraph<Counter> = PnGraph::new(ring4(), &[true, false, false, false]);
    g.step();
    let s = g.states();
    assert_eq!(s[0], CounterState { holding: false, count: 1 });
    assert_eq!(s[1], CounterState { holding: true, count: 1 });
    assert_eq!(s[2], CounterState { holding: false, count: 1 });
    assert_eq!(s[3], CounterState { holding: false, count: 1 });
}

#[test]
fn counter_token_goes_round_the_ring() {
    let mut g: PnGraph<Counter> = PnGraph::new(ring4(), &[true, false, false, false]);
    for r in 1..9u64 {
        g.step();
        for (i, s) in g.states().iter().enumerate() {
            assert_eq!(s.count, r);
            assert_eq!(s.holding, i as u64 == r % 4);
        }
    }
}

#[test]
fn counter_run_matches_steps() {
    let mut a: PnGraph<Counter> = PnGraph::new(ring4(), &[true, false, false, false]);
    let mut b: PnGraph<Counter> = PnGraph::new(ring4(), &[true, false, false, false]);
    a.run(5);
    for _ in 0..5 {
        b.step();
    }
    assert_eq!(a.states(), b.states());
    assert_eq!(a.nodes(), &ring4());
}

#[test]
fn counter_messages() {
    let s = CounterState { holding: true, count: 7 };
    assert_eq!(
        format!("{:?}", Counter::send(3, &s)),
        "[Token, Empty, Empty]"
    );
    let mut t = s;
    Counter::receive(&mut t, &Counter::send(2, &CounterState { holding: false, count: 0 }));
    assert_eq!(t, CounterState { holding: false, count: 8 });
    let mut u = CounterState { holding: false, count: u64::MAX };
    Counter::receive(&mut u, &Counter::send(1, &s));
    assert_eq!(u, CounterState { holding: true, count: u64::MAX });
}

#[test]
fn empty_network_steps() {
    let mut g: PnGraph<Counter> = PnGraph::new(vec![], &[]);
    g.step();
    assert!(g.states().is_empty());
}

#[test]
fn determinism_of_runs() {
    let mut a: PnGraph<Counter> = PnGraph::new(ring4(), &[true, false, true, false]);
    let mut b: PnGraph<Counter> = PnGraph::new(ring4(), &[true, false, true, false]);
    for _ in 0..6 {
        a.step();
        b.step();
        assert_eq!(a.states(), b.states());
    }
}

#[test]
fn tokens_are_conserved() {
    let mut g: PnGraph<Counter> = PnGraph::new(ring4(), &[true, false, true, false]);
    for r in 1..6usize {
        g.step();
        let holders: Vec<usize> = g
            .states()
            .iter()
            .enumerate()
            .filter(|(_, s)| s.holding)
            .map(|(i, _)| i)
            .collect();
        assert_eq!(holders, if r % 2 == 1 { vec![1, 3] } else { vec![0, 2] });
    }
}
