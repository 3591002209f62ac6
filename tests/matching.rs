use pn_sim::bmm::{Bmm, BmmInput, BmmMsg, BmmState};
use pn_sim::engine::{PnAlgorithm, PnGraph};
use pn_sim::topology::is_symmetric;

fn run_bmm(nodes: Vec<Vec<(usize, usize)>>, colours: &[BmmInput]) -> PnGraph<Bmm> {
    assert!(is_symmetric(&nodes));
    let mut g: PnGraph<Bmm> = PnGraph::new(nodes, colours);
    for _ in 0..200 {
        if g.states().iter().all(|s| s.is_output()) {
            break;
        }
        g.step();
    }
    assert!(g.states().iter().all(|s| s.is_output()));
    g
}

/// Checks that matched nodes point at each other and that no two unselected
/// nodes are adjacent.
fn check_matching(g: &PnGraph<Bmm>) {
    let nodes = g.nodes();
    let states = g.states();
    for (u, s) in states.iter().enumerate() {
        match s {
            BmmState::Matched(p) => {
                let (v, q) = nodes[u][*p];
                match &states[v] {
                    BmmState::Matched(p2) => assert_eq!(nodes[v][*p2], (u, *p)),
                    other => panic!("{:?}", other),
                }
                let _ = q;
            }
            BmmState::Unselected => {
                for &(v, _) in &nodes[u] {
                    assert!(!matches!(states[v], BmmState::Unselected));
                }
            }
            other => panic!("{:?}", other),
        }
    }
}

#[test]
fn path_of_five_is_matched() {
    let nodes = vec![
        vec![(1, 0)],
        vec![(0, 0), (2, 0)],
        vec![(1, 1), (3, 0)],
        vec![(2, 1), (4, 0)],
        vec![(3, 1)],
    ];
    let g = run_bmm(nodes, &[BmmInput::White, BmmInput::Black, BmmInput::White, BmmInput::Black, BmmInput::White]);
    check_matching(&g);
    let matched = g.states().iter().filter(|s| s.is_matched()).count();
    assert_eq!(matched, 4);
}

#[test]
fn four_cycle_is_perfectly_matched() {
    let nodes = vec![
        vec![(1, 1), (3, 0)],
        vec![(2, 1), (0, 0)],
        vec![(3, 1), (1, 0)],
        vec![(0, 1), (2, 0)],
    ];
    let g = run_bmm(nodes, &[BmmInput::White, BmmInput::Black, BmmInput::White, BmmInput::Black]);
    check_matching(&g);
    assert!(g.states().iter().all(|s| s.is_matched()));
}

#[test]
fn star_matches_one_leaf() {
    let nodes = vec![
        vec![(1, 0), (2, 0), (3, 0)],
        vec![(0, 0)],
        vec![(0, 1)],
        vec![(0, 2)],
    ];
    let g = run_bmm(nodes, &[BmmInput::Black, BmmInput::White, BmmInput::White, BmmInput::White]);
    check_matching(&g);
    assert!(matches!(g.states()[0], BmmState::Matched(0)));
    assert!(matches!(g.states()[1], BmmState::Matched(0)));
    assert!(matches!(g.states()[2], BmmState::Unselected));
    assert!(matches!(g.states()[3], BmmState::Unselected));
}

#[test]
fn triangle_with_invalid_colouring_terminates() {
    let nodes = vec![
        vec![(1, 0), (2, 0)],
        vec![(0, 0), (2, 1)],
        vec![(0, 1), (1, 1)],
    ];
    // The two white nodes are adjacent: the colouring is not proper.
    let g = run_bmm(nodes, &[BmmInput::White, BmmInput::White, BmmInput::Black]);
    assert!(matches!(g.states()[0], BmmState::Matched(1)));
    assert!(matches!(g.states()[1], BmmState::Unselected));
    assert!(matches!(g.states()[2], BmmState::Matched(0)));
}

#[test]
fn white_proposes_in_port_order() {
    let s = BmmState::UnmatchedWhite(1);
    assert_eq!(
        Bmm::send(3, &s),
        vec![BmmMsg::Proposal, BmmMsg::NoMsg, BmmMsg::NoMsg]
    );
    let s = BmmState::UnmatchedWhite(2);
    assert_eq!(Bmm::send(3, &s), vec![BmmMsg::NoMsg; 3]);
    let s = BmmState::UnmatchedWhite(5);
    assert_eq!(
        Bmm::send(3, &s),
        vec![BmmMsg::NoMsg, BmmMsg::NoMsg, BmmMsg::Proposal]
    );
    let s = BmmState::UnmatchedWhite(7);
    assert_eq!(Bmm::send(3, &s), vec![BmmMsg::NoMsg; 3]);
}

#[test]
fn white_gives_up_after_last_port() {
    let mut s = BmmState::UnmatchedWhite(7);
    Bmm::receive(&mut s, &[BmmMsg::NoMsg; 3]);
    assert!(matches!(s, BmmState::Unselected));
    let mut s = BmmState::UnmatchedWhite(5);
    Bmm::receive(&mut s, &[BmmMsg::NoMsg; 3]);
    assert!(matches!(s, BmmState::UnmatchedWhite(6)));
}

#[test]
fn white_takes_first_accept() {
    let mut s = BmmState::UnmatchedWhite(4);
    Bmm::receive(&mut s, &[BmmMsg::NoMsg, BmmMsg::Accept, BmmMsg::Accept]);
    assert!(matches!(s, BmmState::ProvisionallyMatched(1)));
    assert_eq!(Bmm::send(3, &s), vec![BmmMsg::Matched; 3]);
    Bmm::receive(&mut s, &[BmmMsg::NoMsg; 3]);
    assert!(matches!(s, BmmState::Matched(1)));
    assert_eq!(Bmm::send(3, &s), vec![BmmMsg::NoMsg; 3]);
    // An accept in an odd round is not heeded.
    let mut t = BmmState::UnmatchedWhite(3);
    Bmm::receive(&mut t, &[BmmMsg::Accept, BmmMsg::NoMsg, BmmMsg::NoMsg]);
    assert!(matches!(t, BmmState::UnmatchedWhite(4)));
}

#[test]
fn black_accepts_smallest_proposer() {
    let mut s = Bmm::init(4, &BmmInput::Black);
    assert_eq!(Bmm::send(4, &s), vec![BmmMsg::NoMsg; 4]);
    Bmm::receive(
        &mut s,
        &[BmmMsg::Matched, BmmMsg::NoMsg, BmmMsg::Proposal, BmmMsg::Proposal],
    );
    match &s {
        BmmState::UnmatchedBlack(2, m, x) => {
            assert_eq!(m, &vec![false, false, true, true]);
            assert_eq!(x, &vec![false, true, true, true]);
        }
        other => panic!("{:?}", other),
    }
    assert_eq!(
        Bmm::send(4, &s),
        vec![BmmMsg::NoMsg, BmmMsg::NoMsg, BmmMsg::Accept, BmmMsg::NoMsg]
    );
    Bmm::receive(&mut s, &[BmmMsg::NoMsg; 4]);
    assert!(matches!(s, BmmState::Matched(2)));
    assert!(s.is_output());
    assert!(s.is_matched());
}

#[test]
fn black_without_candidates_is_unselected() {
    let mut s = Bmm::init(2, &BmmInput::Black);
    Bmm::receive(&mut s, &[BmmMsg::Matched, BmmMsg::Matched]);
    assert!(!s.is_output());
    Bmm::receive(&mut s, &[BmmMsg::NoMsg, BmmMsg::NoMsg]);
    assert!(matches!(s, BmmState::Unselected));
    assert!(s.is_output());
    assert!(!s.is_matched());
}

#[test]
fn black_keeps_waiting_with_candidates() {
    let mut s = Bmm::init(2, &BmmInput::Black);
    Bmm::receive(&mut s, &[BmmMsg::Matched, BmmMsg::NoMsg]);
    Bmm::receive(&mut s, &[BmmMsg::NoMsg, BmmMsg::NoMsg]);
    match &s {
        BmmState::UnmatchedBlack(3, m, x) => {
            assert!(m.iter().all(|b| !b));
            assert_eq!(x, &vec![false, true]);
        }
        other => panic!("{:?}", other),
    }
}

#[test]
fn white_initial_state() {
    let s = Bmm::init(3, &BmmInput::White);
    assert!(matches!(s, BmmState::UnmatchedWhite(1)));
    assert!(!s.is_output());
}
