use vstd::prelude::*;
use crate::topology::{Address, addr, bounded, lemma_topo_view_bounded, symmetric, topo_view, valid_addr};

verus! {

/// A deterministic local algorithm in the port-numbering model. Each operation
/// receives the node's port count; its meaning is given by the spec functions
/// over the state's view.
pub trait PnAlgorithm {
    type Input;
    type State: View;
    type Msg;

    spec fn init_spec(ports: nat, i: Self::Input) -> <Self::State as View>::V;

    spec fn send_spec(ports: nat, s: <Self::State as View>::V) -> Seq<Self::Msg>;

    spec fn receive_spec(s: <Self::State as View>::V, data: Seq<Self::Msg>) -> <Self::State as View>::V;

    /// One message per port, in port order.
    proof fn lemma_send_len(ports: nat, s: <Self::State as View>::V)
        ensures
            Self::send_spec(ports, s).len() == ports,
    ;

    fn init(ports: usize, i: &Self::Input) -> (r: Self::State)
        ensures
            r@ == Self::init_spec(ports as nat, *i),
    ;

    fn send(ports: usize, s: &Self::State) -> (r: Vec<Self::Msg>)
        ensures
            r@ == Self::send_spec(ports as nat, s@),
            r@.len() == ports,
    ;

    fn receive(s: &mut Self::State, data: &[Self::Msg])
        ensures
            final(s)@ == Self::receive_spec(old(s)@, data@),
    ;
}

/// The messages that node `i` finds on its ports in a round taken from `states`:
/// on port `q` linked to `(v, p)`, what `v` sent on its port `p`.
pub open spec fn inbox_spec<A: PnAlgorithm>(
    nodes: Seq<Seq<Address>>,
    states: Seq<<A::State as View>::V>,
    i: int,
) -> Seq<A::Msg> {
    Seq::new(
        nodes[i].len(),
        |q: int|
            {
                let a = addr(nodes, i, q);
                A::send_spec(nodes[a.0 as int].len() as nat, states[a.0 as int])[a.1 as int]
            },
    )
}

/// The states after one synchronous round: every node receives what was sent
/// from the states before the round.
pub open spec fn step_spec<A: PnAlgorithm>(
    nodes: Seq<Seq<Address>>,
    states: Seq<<A::State as View>::V>,
) -> Seq<<A::State as View>::V> {
    Seq::new(states.len(), |i: int| A::receive_spec(states[i], inbox_spec::<A>(nodes, states, i)))
}

/// The states after `rounds` rounds.
pub open spec fn run_spec<A: PnAlgorithm>(
    nodes: Seq<Seq<Address>>,
    states: Seq<<A::State as View>::V>,
    rounds: nat,
) -> Seq<<A::State as View>::V>
    decreases rounds,
{
    if rounds == 0 {
        states
    } else {
        step_spec::<A>(nodes, run_spec::<A>(nodes, states, (rounds - 1) as nat))
    }
}

/// The initial states for the given inputs.
pub open spec fn init_states_spec<A: PnAlgorithm>(
    nodes: Seq<Seq<Address>>,
    input: Seq<A::Input>,
) -> Seq<<A::State as View>::V> {
    Seq::new(nodes.len(), |i: int| A::init_spec(nodes[i].len() as nat, input[i]))
}

/// A network and the current state of each of its nodes.
pub struct PnGraph<A: PnAlgorithm> {
    nodes: Vec<Vec<Address>>,
    states: Vec<A::State>,
}

impl<A: PnAlgorithm> PnGraph<A> {
    pub closed spec fn topology(&self) -> Seq<Seq<Address>> {
        topo_view(self.nodes@)
    }

    pub closed spec fn state_view(&self) -> Seq<<A::State as View>::V> {
        Seq::new(self.states@.len(), |i: int| self.states@[i]@)
    }

    pub open spec fn wf(&self) -> bool {
        symmetric(self.topology()) && self.state_view().len() == self.topology().len()
    }

    /// Builds the network with each node in its initial state.
    pub fn new(nodes: Vec<Vec<Address>>, input: &[A::Input]) -> (r: PnGraph<A>)
        requires
            nodes@.len() == input@.len(),
            symmetric(topo_view(nodes@)),
        ensures
            r.wf(),
            r.topology() == topo_view(nodes@),
            r.state_view() == init_states_spec::<A>(topo_view(nodes@), input@),
    {
        let n = nodes.len();
        let mut states: Vec<A::State> = Vec::new();
        let mut i: usize = 0;
        while i < n
            invariant
                n == nodes@.len(),
                n == input@.len(),
                i <= n,
                states@.len() == i,
                forall|j: int|
                    0 <= j < i ==> #[trigger] states@[j]@ == A::init_spec(
                        nodes@[j]@.len() as nat,
                        input@[j],
                    ),
            decreases n - i,
        {
            let s = A::init(nodes[i].len(), &input[i]);
            states.push(s);
            i = i + 1;
        }
        let r = PnGraph { nodes, states };
        assert(r.state_view() =~= init_states_spec::<A>(topo_view(r.nodes@), input@));
        r
    }

    /// The topology.
    pub fn nodes(&self) -> (r: &Vec<Vec<Address>>)
        ensures
            topo_view(r@) == self.topology(),
    {
        &self.nodes
    }

    /// The current states, one per node.
    pub fn states(&self) -> (r: &Vec<A::State>)
        ensures
            r@.len() == self.state_view().len(),
            forall|i: int| 0 <= i < r@.len() ==> #[trigger] r@[i]@ == self.state_view()[i],
    {
        &self.states
    }

    /// Runs one synchronous round: every node sends from its current state,
    /// each message lands in the one inbox slot its port is linked to, and then
    /// every node receives its full inbox.
    pub fn step(&mut self)
        requires
            old(self).wf(),
        ensures
            final(self).wf(),
            final(self).topology() == old(self).topology(),
            final(self).state_view() == step_spec::<A>(old(self).topology(), old(self).state_view()),
    {
        let ghost nodes = topo_view(self.nodes@);
        let ghost states0 = self.state_view();
        let n = self.nodes.len();
        proof {
            lemma_topo_view_bounded(self.nodes@);
        }
        let mut inbox: Vec<Vec<Option<A::Msg>>> = Vec::new();
        let mut i: usize = 0;
        while i < n
            invariant
                n == nodes.len(),
                nodes == topo_view(self.nodes@),
                i <= n,
                inbox@.len() == i,
                forall|v: int, q: int|
                    0 <= v < i && 0 <= q < nodes[v].len() ==> (#[trigger] inbox@[v]@[q]).is_none(),
                forall|v: int| 0 <= v < i ==> (#[trigger] inbox@[v]@).len() == nodes[v].len(),
            decreases n - i,
        {
            let k = self.nodes[i].len();
            let mut row: Vec<Option<A::Msg>> = Vec::new();
            let mut q: usize = 0;
            while q < k
                invariant
                    q <= k,
                    row@.len() == q,
                    forall|q2: int| 0 <= q2 < q ==> (#[trigger] row@[q2]).is_none(),
                decreases k - q,
            {
                row.push(None);
                q = q + 1;
            }
            inbox.push(row);
            i = i + 1;
        }
        // Scatter: the message of (u, p) goes to the slot of the address of (u, p).
        let mut u: usize = 0;
        while u < n
            invariant
                n == nodes.len(),
                nodes == topo_view(self.nodes@),
                states0 == self.state_view(),
                symmetric(nodes),
                bounded(nodes),
                states0.len() == n,
                u <= n,
                inbox@.len() == n,
                forall|v: int| 0 <= v < n ==> (#[trigger] inbox@[v]@).len() == nodes[v].len(),
                forall|v: int, q: int|
                    0 <= v < n && 0 <= q < nodes[v].len() ==> {
                        let a = addr(nodes, v, q);
                        let slot = #[trigger] inbox@[v]@[q];
                        if a.0 < u {
                            slot == Some(
                                A::send_spec(nodes[a.0 as int].len() as nat, states0[a.0 as int])[a.1 as int],
                            )
                        } else {
                            slot.is_none()
                        }
                    },
            decreases n - u,
        {
            let k = self.nodes[u].len();
            let mut out = A::send(k, &self.states[u]);
            let ghost sent = out@;
            let mut j: usize = k;
            while j > 0
                invariant
                    n == nodes.len(),
                    nodes == topo_view(self.nodes@),
                    symmetric(nodes),
                    bounded(nodes),
                    u < n,
                    k == nodes[u as int].len(),
                    sent == A::send_spec(k as nat, states0[u as int]),
                    sent.len() == k,
                    j <= k,
                    out@ == sent.subrange(0, j as int),
                    inbox@.len() == n,
                    forall|v: int| 0 <= v < n ==> (#[trigger] inbox@[v]@).len() == nodes[v].len(),
                    forall|v: int, q: int|
                        0 <= v < n && 0 <= q < nodes[v].len() ==> {
                            let a = addr(nodes, v, q);
                            let slot = #[trigger] inbox@[v]@[q];
                            if a.0 < u || (a.0 == u && a.1 >= j) {
                                slot == Some(
                                    A::send_spec(nodes[a.0 as int].len() as nat, states0[a.0 as int])[a.1 as int],
                                )
                            } else {
                                slot.is_none()
                            }
                        },
                decreases j,
            {
                let m = out.pop().unwrap();
                j = j - 1;
                let (v, q) = self.nodes[u][j];
                assert((v, q) == addr(nodes, u as int, j as int));
                assert(valid_addr(nodes, (v, q)) && addr(nodes, v as int, q as int) == (u, j));
                assert(inbox@[v as int]@[q as int].is_none());
                let ghost before = inbox@;
                inbox[v][q] = Some(m);
                assert forall|v2: int, q2: int|
                    0 <= v2 < n && 0 <= q2 < nodes[v2].len() && (v2 != v || q2 != q) implies
                    addr(nodes, v2, q2) != (u, j) by {
                    let a2 = addr(nodes, v2, q2);
                    if a2 == (u, j) {
                        assert(addr(nodes, a2.0 as int, a2.1 as int) == (v2 as usize, q2 as usize));
                        assert(addr(nodes, u as int, j as int) == (v2 as usize, q2 as usize));
                        assert(v2 == v as int && q2 == q as int);
                    }
                }
                assert forall|v2: int, q2: int|
                    0 <= v2 < n && 0 <= q2 < nodes[v2].len() && (v2 != v || q2 != q) implies
                    inbox@[v2]@[q2] == before[v2]@[q2] by {
                    if v2 != v {
                    }
                }
            }
            u = u + 1;
        }
        // Gather: each node receives its full inbox.
        let mut i: usize = 0;
        while i < n
            invariant
                n == nodes.len(),
                nodes == topo_view(self.nodes@),
                symmetric(nodes),
                states0.len() == n,
                self.states@.len() == n,
                i <= n,
                inbox@.len() == n,
                forall|v: int| 0 <= v < n ==> (#[trigger] inbox@[v]@).len() == nodes[v].len(),
                forall|v: int, q: int|
                    i <= v < n && 0 <= q < nodes[v].len() ==> #[trigger] inbox@[v]@[q] == Some(
                        inbox_spec::<A>(nodes, states0, v)[q],
                    ),
                forall|v: int| i <= v < n ==> #[trigger] self.states@[v]@ == states0[v],
                forall|v: int|
                    0 <= v < i ==> #[trigger] self.states@[v]@ == A::receive_spec(
                        states0[v],
                        inbox_spec::<A>(nodes, states0, v),
                    ),
            decreases n - i,
        {
            let k = self.nodes[i].len();
            let mut data: Vec<A::Msg> = Vec::new();
            let mut q: usize = 0;
            while q < k
                invariant
                    n == nodes.len(),
                    i < n,
                    k == nodes[i as int].len(),
                    inbox@.len() == n,
                    forall|v: int| 0 <= v < n ==> (#[trigger] inbox@[v]@).len() == nodes[v].len(),
                    forall|v: int, q2: int|
                        i < v < n && 0 <= q2 < nodes[v].len() ==> #[trigger] inbox@[v]@[q2]
                            == Some(inbox_spec::<A>(nodes, states0, v)[q2]),
                    forall|q2: int|
                        q <= q2 < k ==> #[trigger] inbox@[i as int]@[q2] == Some(
                            inbox_spec::<A>(nodes, states0, i as int)[q2],
                        ),
                    q <= k,
                    data@ == inbox_spec::<A>(nodes, states0, i as int).subrange(0, q as int),
                decreases k - q,
            {
                let slot = inbox[i][q].take();
                let m = slot.unwrap();
                data.push(m);
                q = q + 1;
            }
            assert(data@ =~= inbox_spec::<A>(nodes, states0, i as int));
            A::receive(&mut self.states[i], data.as_slice());
            i = i + 1;
        }
        assert(self.state_view() =~= step_spec::<A>(nodes, states0));
    }

    /// Runs `rounds` synchronous rounds.
    pub fn run(&mut self, rounds: usize)
        requires
            old(self).wf(),
        ensures
            final(self).wf(),
            final(self).topology() == old(self).topology(),
            final(self).state_view() == run_spec::<A>(
                old(self).topology(),
                old(self).state_view(),
                rounds as nat,
            ),
    {
        let ghost nodes = self.topology();
        let ghost states0 = self.state_view();
        let mut r: usize = 0;
        while r < rounds
            invariant
                self.wf(),
                self.topology() == nodes,
                r <= rounds,
                self.state_view() == run_spec::<A>(nodes, states0, r as nat),
            decreases rounds - r,
        {
            self.step();
            r = r + 1;
        }
    }
}

/// Whether some port is linked to the inbox slot of node `v`'s port `q`.
pub open spec fn has_sender(nodes: Seq<Seq<Address>>, v: int, q: int) -> bool {
    exists|u: int, p: int|
        0 <= u < nodes.len() && 0 <= p < nodes[u].len() && #[trigger] addr(nodes, u, p) == (
        v as usize, q as usize)
}

/// Conservation of messages in a round on a symmetric network: every message
/// lands in an existing inbox slot, no two messages land in the same slot, and
/// every slot receives one; so each node receives as many messages as it sends.
pub proof fn lemma_round_conservation<A: PnAlgorithm>(
    nodes: Seq<Seq<Address>>,
    states: Seq<<A::State as View>::V>,
)
    requires
        symmetric(nodes),
        bounded(nodes),
    ensures
        forall|u: int, p: int|
            0 <= u < nodes.len() && 0 <= p < nodes[u].len() ==> valid_addr(
                nodes,
                #[trigger] addr(nodes, u, p),
            ),
        forall|u: int, p: int, u2: int, p2: int|
            0 <= u < nodes.len() && 0 <= p < nodes[u].len() && 0 <= u2 < nodes.len() && 0 <= p2
                < nodes[u2].len() && #[trigger] addr(nodes, u, p) == #[trigger] addr(nodes, u2, p2)
                ==> u == u2 && p == p2,
        forall|v: int, q: int|
            0 <= v < nodes.len() && 0 <= q < nodes[v].len() ==> #[trigger] has_sender(nodes, v, q),
        forall|i: int|
            0 <= i < nodes.len() ==> (#[trigger] inbox_spec::<A>(nodes, states, i)).len()
                == A::send_spec(nodes[i].len() as nat, states[i]).len(),
{
    assert forall|u: int, p: int, u2: int, p2: int|
        0 <= u < nodes.len() && 0 <= p < nodes[u].len() && 0 <= u2 < nodes.len() && 0 <= p2
            < nodes[u2].len() && #[trigger] addr(nodes, u, p) == #[trigger] addr(nodes, u2, p2)
        implies u == u2 && p == p2 by {
        let a = addr(nodes, u, p);
        assert(addr(nodes, a.0 as int, a.1 as int) == (u as usize, p as usize));
        assert(addr(nodes, a.0 as int, a.1 as int) == (u2 as usize, p2 as usize));
    }
    assert forall|v: int, q: int| 0 <= v < nodes.len() && 0 <= q < nodes[v].len() implies #[trigger] has_sender(nodes, v, q) by {
        let a = addr(nodes, v, q);
        assert(addr(nodes, a.0 as int, a.1 as int) == (v as usize, q as usize));
    }
    assert forall|i: int| 0 <= i < nodes.len() implies (#[trigger] inbox_spec::<A>(
        nodes,
        states,
        i,
    )).len() == A::send_spec(nodes[i].len() as nat, states[i]).len() by {
        A::lemma_send_len(nodes[i].len() as nat, states[i]);
    }
}

/// Determinism: runs from the same topology and the same inputs go through the
/// same states, round after round.
pub proof fn lemma_determinism<A: PnAlgorithm>(
    nodes1: Seq<Seq<Address>>,
    nodes2: Seq<Seq<Address>>,
    input1: Seq<A::Input>,
    input2: Seq<A::Input>,
    rounds: nat,
)
    requires
        nodes1 == nodes2,
        input1 == input2,
    ensures
        run_spec::<A>(nodes1, init_states_spec::<A>(nodes1, input1), rounds) == run_spec::<A>(
            nodes2,
            init_states_spec::<A>(nodes2, input2),
            rounds,
        ),
{
}

} // verus!
