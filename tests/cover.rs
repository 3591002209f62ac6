use pn_sim::engine::PnGraph;
use pn_sim::vc3::{all_output, vertex_cover, Vc3};

fn cover_of(nodes: Vec<Vec<(usize, usize)>>) -> Vec<usize> {
    let n = nodes.len();
    let input = vec![(); n];
    let mut g: PnGraph<Vc3> = PnGraph::new(nodes, &input);
    for _ in 0..200 {
        if all_output(g.states()) {
            break;
        }
        g.step();
    }
    assert!(all_output(g.states()));
    let c = vertex_cover(g.states());
    for (u, ports) in g.nodes().iter().enumerate() {
        for &(v, _) in ports {
            assert!(c.contains(&u) || c.contains(&v), "edge {}-{} uncovered", u, v);
        }
    }
    c
}

/// The size of a maximum matching, by trying every set of links.
fn max_matching(nodes: &Vec<Vec<(usize, usize)>>) -> usize {
    let mut edges = Vec::new();
    for (u, ports) in nodes.iter().enumerate() {
        for &(v, _) in ports {
            if u < v {
                edges.push((u, v));
            }
        }
    }
    let mut best = 0;
    for mask in 0u32..(1u32 << edges.len()) {
        let mut used = vec![false; nodes.len()];
        let mut ok = true;
        let mut size = 0;
        for (i, &(u, v)) in edges.iter().enumerate() {
            if mask & (1 << i) != 0 {
                if used[u] || used[v] {
                    ok = false;
                }
                used[u] = true;
                used[v] = true;
                size += 1;
            }
        }
        if ok && size > best {
            best = size;
        }
    }
    best
}

#[test]
fn cover_within_three_times_matching() {
    let graphs = vec![
        vec![vec![(1, 0), (2, 0)], vec![(0, 0), (2, 1)], vec![(0, 1), (1, 1)]],
        vec![
            vec![(1, 1), (3, 0)],
            vec![(2, 1), (0, 0)],
            vec![(3, 1), (1, 0)],
            vec![(0, 1), (2, 0)],
        ],
        vec![
            vec![(1, 0)],
            vec![(0, 0), (2, 0)],
            vec![(1, 1), (3, 0)],
            vec![(2, 1), (4, 0)],
            vec![(3, 1)],
        ],
        vec![vec![(1, 1)], vec![(2, 0), (0, 0)], vec![(1, 0)]],
    ];
    for g in graphs {
        let m = max_matching(&g);
        let c = cover_of(g);
        assert!(c.len() <= 3 * m);
    }
}

#[test]
fn triangle_cover() {
    let c = cover_of(vec![
        vec![(1, 0), (2, 0)],
        vec![(0, 0), (2, 1)],
        vec![(0, 1), (1, 1)],
    ]);
    assert!(c.len() >= 2);
    assert!(c.len() <= 3 * 1);
}

#[test]
fn path_of_three_cover() {
    let c = cover_of(vec![vec![(1, 1)], vec![(2, 0), (0, 0)], vec![(1, 0)]]);
    assert_eq!(c, vec![1, 2]);
}

#[test]
fn four_cycle_cover() {
    let c = cover_of(vec![
        vec![(1, 1), (3, 0)],
        vec![(2, 1), (0, 0)],
        vec![(3, 1), (1, 0)],
        vec![(0, 1), (2, 0)],
    ]);
    assert!(c.len() >= 2);
    assert!(c.len() <= 3 * 2);
}

#[test]
fn path_of_five_cover() {
    let c = cover_of(vec![
        vec![(1, 0)],
        vec![(0, 0), (2, 0)],
        vec![(1, 1), (3, 0)],
        vec![(2, 1), (4, 0)],
        vec![(3, 1)],
    ]);
    assert!(c.len() >= 2);
    assert!(c.len() <= 3 * 2);
    assert!(c.windows(2).all(|w| w[0] < w[1]));
}

#[test]
fn single_edge_cover() {
    let c = cover_of(vec![vec![(1, 0)], vec![(0, 0)]]);
    assert_eq!(c, vec![0, 1]);
}

#[test]
fn isolated_nodes_are_not_covered() {
    let c = cover_of(vec![vec![], vec![]]);
    assert!(c.is_empty());
}
