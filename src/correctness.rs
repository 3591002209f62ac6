use vstd::prelude::*;
use crate::bmm::{Bmm, BmmInput, BmmMsg, BmmView, inc, is_min, set_min, ports_with, has_accept, first_accept, lemma_first_accept};
use crate::vc3::{Vc3, in_cover, vc3_terminal, firsts, seconds};
use crate::engine::{PnAlgorithm, inbox_spec, step_spec, run_spec, init_states_spec};
use crate::topology::{Address, addr, bounded, symmetric, topo_view, valid_addr};

verus! {

/// Every link joins a white node and a black node.
pub open spec fn proper_colouring(nodes: Seq<Seq<Address>>, colours: Seq<BmmInput>) -> bool {
    &&& colours.len() == nodes.len()
    &&& forall|u: int, p: int|
        0 <= u < nodes.len() && 0 <= p < nodes[u].len() ==> colours[#[trigger] addr(
            nodes,
            u,
            p,
        ).0 as int] != colours[u]
}

/// Every node has terminated.
pub open spec fn all_terminal(states: Seq<BmmView>) -> bool {
    forall|u: int| 0 <= u < states.len() ==> (#[trigger] states[u]).is_terminal()
}

pub open spec fn pm_or_ms(s: BmmView) -> bool {
    s is ProvisionallyMatched || s is Matched
}

/// What holds of a white node after the rounds that brought the counter to `t`.
pub open spec fn white_inv(nodes: Seq<Seq<Address>>, s: Seq<BmmView>, t: usize, u: int) -> bool {
    let k = nodes[u].len();
    match s[u] {
        BmmView::UnmatchedWhite(c) => {
            &&& c == t
            &&& forall|q: int|
                0 <= q < k && q < (t - 1) / 2 ==> s[#[trigger] addr(nodes, u, q).0 as int] is Matched
            &&& (t % 2 == 0 && (t - 2) / 2 < k) ==> {
                let a = addr(nodes, u, (t - 2) / 2);
                s[a.0 as int] is Matched || (s[a.0 as int] is UnmatchedBlack && s[
                a.0 as int]->UnmatchedBlack_1.contains(a.1))
            }
        },
        BmmView::ProvisionallyMatched(q) => q < k && s[addr(nodes, u, q as int).0 as int]
            == BmmView::Matched(addr(nodes, u, q as int).1),
        BmmView::Matched(q) => q < k && s[addr(nodes, u, q as int).0 as int] == BmmView::Matched(
            addr(nodes, u, q as int).1,
        ),
        BmmView::Unselected => forall|q: int|
            0 <= q < k ==> s[#[trigger] addr(nodes, u, q).0 as int] is Matched,
        BmmView::UnmatchedBlack(..) => false,
    }
}

/// What holds of a black node after the rounds that brought the counter to `t`.
pub open spec fn black_inv(nodes: Seq<Seq<Address>>, s: Seq<BmmView>, t: usize, v: int) -> bool {
    let k = nodes[v].len();
    match s[v] {
        BmmView::UnmatchedBlack(c, m, x) => {
            &&& c == t
            &&& t % 2 == 1 ==> m == Set::<usize>::empty()
            &&& t % 2 == 0 ==> forall|p: usize|
                #[trigger] m.contains(p) ==> (p as int) < k && s[addr(nodes, v, p as int).0 as int]
                    == BmmView::UnmatchedWhite(t) && addr(nodes, v, p as int).1 == (t - 2) / 2
            &&& forall|p: int|
                0 <= p < k && !x.contains(p as usize) ==> pm_or_ms(
                    s[#[trigger] addr(nodes, v, p).0 as int],
                )
        },
        BmmView::Matched(p) => p < k && {
            let a = addr(nodes, v, p as int);
            s[a.0 as int] == BmmView::ProvisionallyMatched(a.1) || s[a.0 as int]
                == BmmView::Matched(a.1)
        },
        BmmView::Unselected => forall|p: int|
            0 <= p < k ==> pm_or_ms(s[#[trigger] addr(nodes, v, p).0 as int]),
        _ => false,
    }
}

pub open spec fn inv(
    nodes: Seq<Seq<Address>>,
    colours: Seq<BmmInput>,
    s: Seq<BmmView>,
    t: usize,
) -> bool {
    &&& t >= 1
    &&& s.len() == nodes.len()
    &&& bounded(nodes)
    &&& forall|u: int|
        #![trigger white_inv(nodes, s, t, u)]
        #![trigger black_inv(nodes, s, t, u)]
        0 <= u < nodes.len() ==> if colours[u] == BmmInput::White {
            white_inv(nodes, s, t, u)
        } else {
            black_inv(nodes, s, t, u)
        }
}

proof fn lemma_min_from(m: Set<usize>, x: usize)
    requires
        m.contains(x),
    ensures
        is_min(m, set_min(m)),
    decreases x,
{
    if exists|y: usize| m.contains(y) && y < x {
        let y = choose|y: usize| m.contains(y) && y < x;
        lemma_min_from(m, y);
    } else {
        assert(is_min(m, x));
    }
}

proof fn lemma_min(m: Set<usize>)
    requires
        m != Set::<usize>::empty(),
    ensures
        is_min(m, set_min(m)),
{
    if forall|y: usize| !m.contains(y) {
        assert(m =~= Set::<usize>::empty());
    }
    let y = choose|y: usize| m.contains(y);
    lemma_min_from(m, y);
}

/// What a white node finds on port `q`.
proof fn lemma_white_inbox(
    nodes: Seq<Seq<Address>>,
    colours: Seq<BmmInput>,
    s: Seq<BmmView>,
    t: usize,
    u: int,
    q: int,
)
    requires
        symmetric(nodes),
        proper_colouring(nodes, colours),
        inv(nodes, colours, s, t),
        0 <= u < nodes.len(),
        colours[u] == BmmInput::White,
        0 <= q < nodes[u].len(),
    ensures
        ({
            let a = addr(nodes, u, q);
            let msg = inbox_spec::<Bmm>(nodes, s, u)[q];
            &&& valid_addr(nodes, a)
            &&& colours[a.0 as int] == BmmInput::Black
            &&& black_inv(nodes, s, t, a.0 as int)
            &&& msg == BmmMsg::Accept <==> (t % 2 == 0 && s[a.0 as int] is UnmatchedBlack
                && s[a.0 as int]->UnmatchedBlack_1 != Set::<usize>::empty() && set_min(
                s[a.0 as int]->UnmatchedBlack_1,
            ) == a.1)
            &&& msg == BmmMsg::Accept ==> s[u] == BmmView::UnmatchedWhite(t) && q == (t - 2) / 2
        }),
{
    let a = addr(nodes, u, q);
    let v = a.0 as int;
    assert(colours[v] != colours[u]);
    assert(black_inv(nodes, s, t, v));
    let kv = nodes[v].len();
    let msg = inbox_spec::<Bmm>(nodes, s, u)[q];
    assert(msg == Bmm::send_spec(kv as nat, s[v])[a.1 as int]);
    if let BmmView::UnmatchedBlack(c, m, x) = s[v] {
        if m != Set::<usize>::empty() && t % 2 == 0 {
            lemma_min(m);
            if set_min(m) == a.1 {
                assert(m.contains(a.1));
                assert(addr(nodes, v, a.1 as int) == (u as usize, q as usize));
            }
        }
    }
}

/// What a black node finds on port `p`.
proof fn lemma_black_inbox(
    nodes: Seq<Seq<Address>>,
    colours: Seq<BmmInput>,
    s: Seq<BmmView>,
    t: usize,
    v: int,
    p: int,
)
    requires
        symmetric(nodes),
        proper_colouring(nodes, colours),
        inv(nodes, colours, s, t),
        0 <= v < nodes.len(),
        colours[v] == BmmInput::Black,
        0 <= p < nodes[v].len(),
    ensures
        ({
            let a = addr(nodes, v, p);
            let msg = inbox_spec::<Bmm>(nodes, s, v)[p];
            &&& valid_addr(nodes, a)
            &&& colours[a.0 as int] == BmmInput::White
            &&& white_inv(nodes, s, t, a.0 as int)
            &&& msg == BmmMsg::Proposal <==> (s[a.0 as int] == BmmView::UnmatchedWhite(t) && t % 2
                == 1 && a.1 == (t - 1) / 2 && (t + 1) / 2 <= nodes[a.0 as int].len())
            &&& msg == BmmMsg::Matched <==> s[a.0 as int] is ProvisionallyMatched
        }),
{
    let a = addr(nodes, v, p);
    let u = a.0 as int;
    assert(colours[u] != colours[v]);
    assert(white_inv(nodes, s, t, u));
    let ku = nodes[u].len();
    let msg = inbox_spec::<Bmm>(nodes, s, v)[p];
    assert(msg == Bmm::send_spec(ku as nat, s[u])[a.1 as int]);
}

proof fn lemma_next(nodes: Seq<Seq<Address>>, s: Seq<BmmView>, w: int)
    requires
        s.len() == nodes.len(),
        0 <= w < nodes.len(),
    ensures
        step_spec::<Bmm>(nodes, s)[w] == Bmm::receive_spec(s[w], inbox_spec::<Bmm>(nodes, s, w)),
        s[w] is Matched ==> step_spec::<Bmm>(nodes, s)[w] == s[w],
        s[w] is ProvisionallyMatched ==> step_spec::<Bmm>(nodes, s)[w] == BmmView::Matched(
            s[w]->ProvisionallyMatched_0,
        ),
        pm_or_ms(s[w]) ==> step_spec::<Bmm>(nodes, s)[w] is Matched,
{
}

/// A white node that waits for an answer in an even round finds an accept, if
/// any, on the port it proposed on.
proof fn lemma_white_accept(
    nodes: Seq<Seq<Address>>,
    colours: Seq<BmmInput>,
    s: Seq<BmmView>,
    t: usize,
    u: int,
)
    requires
        symmetric(nodes),
        proper_colouring(nodes, colours),
        inv(nodes, colours, s, t),
        0 <= u < nodes.len(),
        colours[u] == BmmInput::White,
        has_accept(inbox_spec::<Bmm>(nodes, s, u)),
    ensures
        (t - 2) / 2 < nodes[u].len(),
        t % 2 == 0,
        inbox_spec::<Bmm>(nodes, s, u)[(t - 2) / 2] == BmmMsg::Accept,
        first_accept(inbox_spec::<Bmm>(nodes, s, u)) == (t - 2) / 2,
{
    let data = inbox_spec::<Bmm>(nodes, s, u);
    let q = choose|q: int| 0 <= q < data.len() && data[q] == BmmMsg::Accept;
    lemma_white_inbox(nodes, colours, s, t, u, q);
    assert forall|r: int| 0 <= r < q implies data[r] != BmmMsg::Accept by {
        lemma_white_inbox(nodes, colours, s, t, u, r);
    }
    lemma_first_accept(data, q as usize);
}

proof fn lemma_step_white(
    nodes: Seq<Seq<Address>>,
    colours: Seq<BmmInput>,
    s: Seq<BmmView>,
    t: usize,
    u: int,
)
    requires
        symmetric(nodes),
        proper_colouring(nodes, colours),
        inv(nodes, colours, s, t),
        t + 1 < usize::MAX,
        0 <= u < nodes.len(),
        colours[u] == BmmInput::White,
    ensures
        white_inv(nodes, step_spec::<Bmm>(nodes, s), (t + 1) as usize, u),
{
    let s2 = step_spec::<Bmm>(nodes, s);
    let t2 = (t + 1) as usize;
    let k = nodes[u].len();
    let data = inbox_spec::<Bmm>(nodes, s, u);
    assert(white_inv(nodes, s, t, u));
    lemma_next(nodes, s, u);
    match s[u] {
        BmmView::UnmatchedWhite(c) => {
            if t % 2 == 1 && (t + 1) / 2 > k {
                assert forall|q: int| 0 <= q < k implies s2[#[trigger] addr(nodes, u, q).0 as int] is Matched by {
                    lemma_next(nodes, s, addr(nodes, u, q).0 as int);
                }
            } else if t % 2 == 1 {
                assert(s2[u] == BmmView::UnmatchedWhite(t2));
                assert forall|q: int| 0 <= q < k && q < (t2 - 1) / 2 implies s2[#[trigger] addr(nodes, u, q).0 as int] is Matched by {
                    lemma_next(nodes, s, addr(nodes, u, q).0 as int);
                }
                let q0 = (t2 - 2) / 2;
                if q0 < k {
                    let a = addr(nodes, u, q0);
                    let v = a.0 as int;
                    lemma_white_inbox(nodes, colours, s, t, u, q0);
                    lemma_black_inbox(nodes, colours, s, t, v, a.1 as int);
                    assert(addr(nodes, v, a.1 as int) == (u as usize, q0 as usize));
                    lemma_next(nodes, s, v);
                    assert(inbox_spec::<Bmm>(nodes, s, v)[a.1 as int] == BmmMsg::Proposal);
                    if s[v] is UnmatchedBlack {
                        assert(ports_with(inbox_spec::<Bmm>(nodes, s, v), BmmMsg::Proposal).contains(a.1));
                    }
                }
            } else if has_accept(data) {
                lemma_white_accept(nodes, colours, s, t, u);
                let q0 = (t - 2) / 2;
                let a = addr(nodes, u, q0);
                let v = a.0 as int;
                lemma_white_inbox(nodes, colours, s, t, u, q0);
                lemma_next(nodes, s, v);
                assert(s2[u] == BmmView::ProvisionallyMatched(q0 as usize));
            } else {
                assert(s2[u] == BmmView::UnmatchedWhite(t2));
                assert forall|q: int| 0 <= q < k && q < (t2 - 1) / 2 implies s2[#[trigger] addr(nodes, u, q).0 as int] is Matched by {
                    let v = addr(nodes, u, q).0 as int;
                    lemma_next(nodes, s, v);
                    if q == (t - 2) / 2 {
                        lemma_white_inbox(nodes, colours, s, t, u, q);
                        if s[v] is UnmatchedBlack {
                            let m = s[v]->UnmatchedBlack_1;
                            assert(m.contains(addr(nodes, u, q).1));
                            assert(m != Set::<usize>::empty());
                        }
                    }
                }
            }
        },
        BmmView::ProvisionallyMatched(q) => {
            lemma_next(nodes, s, addr(nodes, u, q as int).0 as int);
        },
        BmmView::Matched(q) => {
            lemma_next(nodes, s, addr(nodes, u, q as int).0 as int);
        },
        BmmView::Unselected => {
            assert forall|q: int| 0 <= q < k implies s2[#[trigger] addr(nodes, u, q).0 as int] is Matched by {
                lemma_next(nodes, s, addr(nodes, u, q).0 as int);
            }
        },
        BmmView::UnmatchedBlack(..) => {},
    }
}

proof fn lemma_step_black(
    nodes: Seq<Seq<Address>>,
    colours: Seq<BmmInput>,
    s: Seq<BmmView>,
    t: usize,
    v: int,
)
    requires
        symmetric(nodes),
        proper_colouring(nodes, colours),
        inv(nodes, colours, s, t),
        t + 1 < usize::MAX,
        0 <= v < nodes.len(),
        colours[v] == BmmInput::Black,
    ensures
        black_inv(nodes, step_spec::<Bmm>(nodes, s), (t + 1) as usize, v),
{
    let s2 = step_spec::<Bmm>(nodes, s);
    let t2 = (t + 1) as usize;
    let k = nodes[v].len();
    let data = inbox_spec::<Bmm>(nodes, s, v);
    assert(black_inv(nodes, s, t, v));
    lemma_next(nodes, s, v);
    match s[v] {
        BmmView::UnmatchedBlack(c, m, x) => {
            if t % 2 == 1 {
                let m2 = m.union(ports_with(data, BmmMsg::Proposal));
                let x2 = x.difference(ports_with(data, BmmMsg::Matched));
                assert(s2[v] == BmmView::UnmatchedBlack(t2, m2, x2));
                assert forall|p: usize| #[trigger] m2.contains(p) implies (p as int) < k && s2[addr(
                    nodes,
                    v,
                    p as int,
                ).0 as int] == BmmView::UnmatchedWhite(t2) && addr(nodes, v, p as int).1 == (t2 - 2)
                    / 2 by {
                    assert(!m.contains(p));
                    lemma_black_inbox(nodes, colours, s, t, v, p as int);
                    lemma_next(nodes, s, addr(nodes, v, p as int).0 as int);
                }
                assert forall|p: int| 0 <= p < k && !x2.contains(p as usize) implies pm_or_ms(
                    s2[#[trigger] addr(nodes, v, p).0 as int],
                ) by {
                    lemma_black_inbox(nodes, colours, s, t, v, p);
                    lemma_next(nodes, s, addr(nodes, v, p).0 as int);
                    if !x.contains(p as usize) {
                    } else {
                        assert(ports_with(data, BmmMsg::Matched).contains(p as usize));
                    }
                }
            } else if m != Set::<usize>::empty() {
                lemma_min(m);
                let p = set_min(m);
                let a = addr(nodes, v, p as int);
                let u = a.0 as int;
                assert(m.contains(p));
                assert(s2[v] == BmmView::Matched(p));
                lemma_black_inbox(nodes, colours, s, t, v, p as int);
                assert(addr(nodes, u, a.1 as int) == (v as usize, p));
                lemma_white_inbox(nodes, colours, s, t, u, a.1 as int);
                assert(has_accept(inbox_spec::<Bmm>(nodes, s, u)));
                lemma_white_accept(nodes, colours, s, t, u);
                lemma_next(nodes, s, u);
                assert(s2[u] == BmmView::ProvisionallyMatched(a.1));
            } else if x == Set::<usize>::empty() {
                assert forall|p: int| 0 <= p < k implies pm_or_ms(
                    s2[#[trigger] addr(nodes, v, p).0 as int],
                ) by {
                    assert(!x.contains(p as usize));
                    lemma_black_inbox(nodes, colours, s, t, v, p);
                    lemma_next(nodes, s, addr(nodes, v, p).0 as int);
                }
            } else {
                assert(s2[v] == BmmView::UnmatchedBlack(t2, m, x));
                assert forall|p: int| 0 <= p < k && !x.contains(p as usize) implies pm_or_ms(
                    s2[#[trigger] addr(nodes, v, p).0 as int],
                ) by {
                    lemma_black_inbox(nodes, colours, s, t, v, p);
                    lemma_next(nodes, s, addr(nodes, v, p).0 as int);
                }
            }
        },
        BmmView::Matched(p) => {
            lemma_black_inbox(nodes, colours, s, t, v, p as int);
            lemma_next(nodes, s, addr(nodes, v, p as int).0 as int);
        },
        BmmView::Unselected => {
            assert forall|p: int| 0 <= p < k implies pm_or_ms(
                s2[#[trigger] addr(nodes, v, p).0 as int],
            ) by {
                lemma_black_inbox(nodes, colours, s, t, v, p);
                lemma_next(nodes, s, addr(nodes, v, p).0 as int);
            }
        },
        _ => {},
    }
}

proof fn lemma_step(nodes: Seq<Seq<Address>>, colours: Seq<BmmInput>, s: Seq<BmmView>, t: usize)
    requires
        symmetric(nodes),
        proper_colouring(nodes, colours),
        inv(nodes, colours, s, t),
        t + 1 < usize::MAX,
    ensures
        inv(nodes, colours, step_spec::<Bmm>(nodes, s), (t + 1) as usize),
{
    let s2 = step_spec::<Bmm>(nodes, s);
    assert forall|u: int| 0 <= u < nodes.len() implies if colours[u] == BmmInput::White {
        white_inv(nodes, s2, (t + 1) as usize, u)
    } else {
        black_inv(nodes, s2, (t + 1) as usize, u)
    } by {
        if colours[u] == BmmInput::White {
            lemma_step_white(nodes, colours, s, t, u);
        } else {
            lemma_step_black(nodes, colours, s, t, u);
        }
    }
}

proof fn lemma_init(nodes: Seq<Seq<Address>>, colours: Seq<BmmInput>)
    requires
        symmetric(nodes),
        proper_colouring(nodes, colours),
        bounded(nodes),
    ensures
        inv(nodes, colours, init_states_spec::<Bmm>(nodes, colours), 1),
{
    let s = init_states_spec::<Bmm>(nodes, colours);
    assert forall|u: int| 0 <= u < nodes.len() implies if colours[u] == BmmInput::White {
        white_inv(nodes, s, 1, u)
    } else {
        black_inv(nodes, s, 1, u)
    } by {
        if colours[u] == BmmInput::Black {
        }
    }
}

proof fn lemma_run(nodes: Seq<Seq<Address>>, colours: Seq<BmmInput>, rounds: nat)
    requires
        symmetric(nodes),
        proper_colouring(nodes, colours),
        bounded(nodes),
        rounds + 2 < usize::MAX,
    ensures
        inv(
            nodes,
            colours,
            run_spec::<Bmm>(nodes, init_states_spec::<Bmm>(nodes, colours), rounds),
            (rounds + 1) as usize,
        ),
    decreases rounds,
{
    if rounds == 0 {
        lemma_init(nodes, colours);
    } else {
        lemma_run(nodes, colours, (rounds - 1) as nat);
        lemma_step(
            nodes,
            colours,
            run_spec::<Bmm>(nodes, init_states_spec::<Bmm>(nodes, colours), (rounds - 1) as nat),
            rounds as usize,
        );
    }
}

/// Matching validity: once every node of a properly two-coloured network has
/// terminated, a node matched on port `q` faces a neighbour matched on the port
/// that leads back, and no two nodes are matched to the same neighbour.
pub proof fn lemma_matching_valid(nodes: Seq<Seq<Address>>, colours: Seq<BmmInput>, rounds: nat)
    requires
        symmetric(nodes),
        proper_colouring(nodes, colours),
        bounded(nodes),
        rounds + 2 < usize::MAX,
    ensures
        ({
            let s = run_spec::<Bmm>(nodes, init_states_spec::<Bmm>(nodes, colours), rounds);
            all_terminal(s) ==> {
                &&& forall|u: int|
                    0 <= u < nodes.len() && #[trigger] s[u] is Matched ==> {
                        let q = s[u]->Matched_0;
                        let a = addr(nodes, u, q as int);
                        (q as int) < nodes[u].len() && s[a.0 as int] == BmmView::Matched(a.1)
                    }
                &&& forall|u: int, u2: int|
                    0 <= u < nodes.len() && 0 <= u2 < nodes.len() && #[trigger] s[u] is Matched
                        && #[trigger] s[u2] is Matched && addr(nodes, u, s[u]->Matched_0 as int).0
                        == addr(nodes, u2, s[u2]->Matched_0 as int).0 ==> u == u2
            }
        }),
{
    let s = run_spec::<Bmm>(nodes, init_states_spec::<Bmm>(nodes, colours), rounds);
    lemma_run(nodes, colours, rounds);
    if all_terminal(s) {
        assert forall|u: int| 0 <= u < nodes.len() && #[trigger] s[u] is Matched implies {
            let q = s[u]->Matched_0;
            let a = addr(nodes, u, q as int);
            (q as int) < nodes[u].len() && s[a.0 as int] == BmmView::Matched(a.1)
        } by {
            let q = s[u]->Matched_0;
            let a = addr(nodes, u, q as int);
            if colours[u] == BmmInput::White {
                assert(white_inv(nodes, s, (rounds + 1) as usize, u));
            } else {
                assert(black_inv(nodes, s, (rounds + 1) as usize, u));
                assert(s[a.0 as int].is_terminal());
            }
        }
        assert forall|u: int, u2: int|
            0 <= u < nodes.len() && 0 <= u2 < nodes.len() && #[trigger] s[u] is Matched
                && #[trigger] s[u2] is Matched && addr(nodes, u, s[u]->Matched_0 as int).0 == addr(
                nodes,
                u2,
                s[u2]->Matched_0 as int,
            ).0 implies u == u2 by {
            let q = s[u]->Matched_0;
            let q2 = s[u2]->Matched_0;
            let a = addr(nodes, u, q as int);
            let a2 = addr(nodes, u2, q2 as int);
            if colours[u] == BmmInput::White {
                assert(white_inv(nodes, s, (rounds + 1) as usize, u));
            } else {
                assert(black_inv(nodes, s, (rounds + 1) as usize, u));
                assert(s[a.0 as int].is_terminal());
            }
            if colours[u2] == BmmInput::White {
                assert(white_inv(nodes, s, (rounds + 1) as usize, u2));
            } else {
                assert(black_inv(nodes, s, (rounds + 1) as usize, u2));
                assert(s[a2.0 as int].is_terminal());
            }
            assert(a == a2);
            assert(addr(nodes, a.0 as int, a.1 as int) == (u as usize, q));
            assert(addr(nodes, a2.0 as int, a2.1 as int) == (u2 as usize, q2));
        }
    }
}

/// Matching maximality: once every node of a properly two-coloured network has
/// terminated, no two unselected nodes are neighbours.
pub proof fn lemma_matching_maximal(nodes: Seq<Seq<Address>>, colours: Seq<BmmInput>, rounds: nat)
    requires
        symmetric(nodes),
        proper_colouring(nodes, colours),
        bounded(nodes),
        rounds + 2 < usize::MAX,
    ensures
        ({
            let s = run_spec::<Bmm>(nodes, init_states_spec::<Bmm>(nodes, colours), rounds);
            all_terminal(s) ==> forall|u: int, p: int|
                0 <= u < nodes.len() && 0 <= p < nodes[u].len() && s[u] is Unselected ==> !(s[
                #[trigger] addr(nodes, u, p).0 as int] is Unselected)
        }),
{
    let s = run_spec::<Bmm>(nodes, init_states_spec::<Bmm>(nodes, colours), rounds);
    lemma_run(nodes, colours, rounds);
    if all_terminal(s) {
        assert forall|u: int, p: int|
            0 <= u < nodes.len() && 0 <= p < nodes[u].len() && s[u] is Unselected implies !(s[
            #[trigger] addr(nodes, u, p).0 as int] is Unselected) by {
            if colours[u] == BmmInput::White {
                assert(white_inv(nodes, s, (rounds + 1) as usize, u));
            } else {
                assert(black_inv(nodes, s, (rounds + 1) as usize, u));
            }
        }
    }
}

/// The bipartite double cover: node `u` of `n` becomes a white twin `u` and a
/// black twin `n + u`; a link from `u` to `v` joins each twin of `u` to the
/// twin of `v` of the other colour.
pub open spec fn double_cover(nodes: Seq<Seq<Address>>) -> Seq<Seq<Address>> {
    let n = nodes.len();
    Seq::new(
        2 * n,
        |w: int|
            if w < n {
                Seq::new(nodes[w].len(), |p: int| ((n + nodes[w][p].0) as usize, nodes[w][p].1))
            } else {
                nodes[w - n]
            },
    )
}

/// The colours of the double cover: white twins first, then black twins.
pub open spec fn double_colours(n: nat) -> Seq<BmmInput> {
    Seq::new(2 * n, |w: int| if w < n { BmmInput::White } else { BmmInput::Black })
}

/// The states of the twins, white twins first.
pub open spec fn twin_states(vs: Seq<(BmmView, BmmView)>) -> Seq<BmmView> {
    let n = vs.len();
    Seq::new(2 * n, |w: int| if w < n { vs[w].0 } else { vs[w - n].1 })
}

proof fn lemma_double_cover(nodes: Seq<Seq<Address>>)
    requires
        symmetric(nodes),
        bounded(nodes),
        2 * nodes.len() <= usize::MAX,
    ensures
        symmetric(double_cover(nodes)),
        bounded(double_cover(nodes)),
        proper_colouring(double_cover(nodes), double_colours(nodes.len())),
{
    let n = nodes.len() as int;
    let d = double_cover(nodes);
    let c = double_colours(nodes.len());
    assert forall|w: int, p: int| 0 <= w < d.len() && 0 <= p < d[w].len() implies {
        let a = #[trigger] addr(d, w, p);
        valid_addr(d, a) && addr(d, a.0 as int, a.1 as int) == (w as usize, p as usize)
            && c[a.0 as int] != c[w]
    } by {
        if w < n {
            let b = addr(nodes, w, p);
            assert(valid_addr(nodes, b));
            assert(addr(nodes, b.0 as int, b.1 as int) == (w as usize, p as usize));
        } else {
            let b = addr(nodes, w - n, p);
            assert(valid_addr(nodes, b));
            assert(addr(nodes, b.0 as int, b.1 as int) == ((w - n) as usize, p as usize));
        }
    }
    assert forall|w: int| 0 <= w < d.len() implies #[trigger] d[w].len() <= usize::MAX by {
        if w < n {
        } else {
            assert(nodes[w - n].len() <= usize::MAX);
        }
    }
}

proof fn lemma_twin_step(nodes: Seq<Seq<Address>>, vs: Seq<(BmmView, BmmView)>)
    requires
        symmetric(nodes),
        2 * nodes.len() <= usize::MAX,
        vs.len() == nodes.len(),
    ensures
        twin_states(step_spec::<Vc3>(nodes, vs)) == step_spec::<Bmm>(
            double_cover(nodes),
            twin_states(vs),
        ),
{
    let n = nodes.len() as int;
    let d = double_cover(nodes);
    let lhs = twin_states(step_spec::<Vc3>(nodes, vs));
    let rhs = step_spec::<Bmm>(d, twin_states(vs));
    assert forall|w: int| 0 <= w < 2 * n implies lhs[w] == rhs[w] by {
        if w < n {
            let a = seconds(inbox_spec::<Vc3>(nodes, vs, w));
            let b = inbox_spec::<Bmm>(d, twin_states(vs), w);
            assert forall|p: int| 0 <= p < a.len() implies a[p] == b[p] by {
                assert(valid_addr(nodes, addr(nodes, w, p)));
            }
            assert(a =~= b);
        } else {
            let a = firsts(inbox_spec::<Vc3>(nodes, vs, w - n));
            let b = inbox_spec::<Bmm>(d, twin_states(vs), w);
            assert forall|p: int| 0 <= p < a.len() implies a[p] == b[p] by {
                assert(valid_addr(nodes, addr(nodes, w - n, p)));
            }
            assert(a =~= b);
        }
    }
    assert(lhs =~= rhs);
}

proof fn lemma_twin_run(nodes: Seq<Seq<Address>>, input: Seq<()>, rounds: nat)
    requires
        symmetric(nodes),
        2 * nodes.len() <= usize::MAX,
        input.len() == nodes.len(),
    ensures
        run_spec::<Vc3>(nodes, init_states_spec::<Vc3>(nodes, input), rounds).len() == nodes.len(),
        twin_states(run_spec::<Vc3>(nodes, init_states_spec::<Vc3>(nodes, input), rounds))
            == run_spec::<Bmm>(
            double_cover(nodes),
            init_states_spec::<Bmm>(double_cover(nodes), double_colours(nodes.len())),
            rounds,
        ),
    decreases rounds,
{
    if rounds == 0 {
        let n = nodes.len() as int;
        let lhs = twin_states(init_states_spec::<Vc3>(nodes, input));
        let rhs = init_states_spec::<Bmm>(double_cover(nodes), double_colours(nodes.len()));
        assert forall|w: int| 0 <= w < 2 * n implies lhs[w] == rhs[w] by {
            if w >= n {
                assert(double_cover(nodes)[w] == nodes[w - n]);
            }
        }
        assert(lhs =~= rhs);
    } else {
        lemma_twin_run(nodes, input, (rounds - 1) as nat);
        lemma_twin_step(
            nodes,
            run_spec::<Vc3>(nodes, init_states_spec::<Vc3>(nodes, input), (rounds - 1) as nat),
        );
    }
}

/// Cover validity: once every node has terminated, the vertex cover algorithm
/// has put at least one end of every link into the cover.
pub proof fn lemma_cover_valid(nodes: Seq<Seq<Address>>, input: Seq<()>, rounds: nat)
    requires
        symmetric(nodes),
        bounded(nodes),
        2 * nodes.len() <= usize::MAX,
        input.len() == nodes.len(),
        rounds + 2 < usize::MAX,
    ensures
        ({
            let vs = run_spec::<Vc3>(nodes, init_states_spec::<Vc3>(nodes, input), rounds);
            (forall|u: int| 0 <= u < nodes.len() ==> vc3_terminal(#[trigger] vs[u])) ==> forall|
                u: int,
                p: int,
            |
                0 <= u < nodes.len() && 0 <= p < nodes[u].len() ==> in_cover(vs[u]) || in_cover(
                    vs[#[trigger] addr(nodes, u, p).0 as int],
                )
        }),
{
    let n = nodes.len() as int;
    let d = double_cover(nodes);
    let c = double_colours(nodes.len());
    let vs = run_spec::<Vc3>(nodes, init_states_spec::<Vc3>(nodes, input), rounds);
    lemma_double_cover(nodes);
    lemma_twin_run(nodes, input, rounds);
    lemma_matching_maximal(d, c, rounds);
    let s = twin_states(vs);
    if forall|u: int| 0 <= u < nodes.len() ==> vc3_terminal(#[trigger] vs[u]) {
        assert(all_terminal(s)) by {
            assert forall|w: int| 0 <= w < s.len() implies (#[trigger] s[w]).is_terminal() by {
                if w < n {
                    assert(vc3_terminal(vs[w]));
                } else {
                    assert(vc3_terminal(vs[w - n]));
                }
            }
        }
        assert forall|u: int, p: int|
            0 <= u < nodes.len() && 0 <= p < nodes[u].len() implies in_cover(vs[u]) || in_cover(
            vs[#[trigger] addr(nodes, u, p).0 as int],
        ) by {
            let a = addr(nodes, u, p);
            assert(valid_addr(nodes, a));
            assert(addr(d, u, p).0 == n + a.0);
            assert(vc3_terminal(vs[u]));
            assert(vc3_terminal(vs[a.0 as int]));
            assert(s[u] == vs[u].0);
            assert(s[n + a.0] == vs[a.0 as int].1);
        }
    }
}

} // verus!
