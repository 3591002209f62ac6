use vstd::prelude::*;

verus! {

/// A network in the port-numbering model: node `u`'s port `p` is linked to the
/// remote endpoint `nodes[u][p] == (v, q)`, node `v`'s port `q`.
pub type Address = (usize, usize);

/// The network as a sequence of port lists.
pub open spec fn topo_view(nodes: Seq<Vec<Address>>) -> Seq<Seq<Address>> {
    Seq::new(nodes.len(), |i: int| nodes[i]@)
}

/// The node count and every port count fit in a `usize`, as they do for a
/// network held in vectors.
pub open spec fn bounded(nodes: Seq<Seq<Address>>) -> bool {
    &&& nodes.len() <= usize::MAX
    &&& forall|u: int| 0 <= u < nodes.len() ==> #[trigger] nodes[u].len() <= usize::MAX
}

pub proof fn lemma_topo_view_bounded(nodes: Seq<Vec<Address>>)
    requires
        nodes.len() <= usize::MAX,
    ensures
        bounded(topo_view(nodes)),
{
    assert forall|u: int| 0 <= u < nodes.len() implies #[trigger] topo_view(nodes)[u].len()
        <= usize::MAX by {
        assert(nodes[u].len() == nodes[u]@.len());
    }
}

/// Whether `a` names an existing port of the network.
pub open spec fn valid_addr(nodes: Seq<Seq<Address>>, a: Address) -> bool {
    a.0 < nodes.len() && a.1 < nodes[a.0 as int].len()
}

/// The remote endpoint of node `u`'s port `p`.
pub open spec fn addr(nodes: Seq<Seq<Address>>, u: int, p: int) -> Address {
    nodes[u][p]
}

/// Every link is bidirectional: if port `(u, p)` leads to `(v, q)`, then port
/// `(v, q)` exists and leads back to `(u, p)`.
pub open spec fn symmetric(nodes: Seq<Seq<Address>>) -> bool {
    forall|u: int, p: int|
        0 <= u < nodes.len() && 0 <= p < nodes[u].len() ==> {
            let a = #[trigger] addr(nodes, u, p);
            valid_addr(nodes, a) && addr(nodes, a.0 as int, a.1 as int) == (u as usize, p as usize)
        }
}

/// Tests whether a network is symmetric, which the round engine requires.
pub fn is_symmetric(nodes: &Vec<Vec<Address>>) -> (r: bool)
    ensures
        r == symmetric(topo_view(nodes@)),
{
    let n = nodes.len();
    let mut u: usize = 0;
    while u < n
        invariant
            n == nodes@.len(),
            u <= n,
            forall|u2: int, p: int|
                0 <= u2 < u && 0 <= p < nodes@[u2]@.len() ==> {
                    let a = #[trigger] addr(topo_view(nodes@), u2, p);
                    valid_addr(topo_view(nodes@), a) && addr(topo_view(nodes@), a.0 as int, a.1 as int) == (
                    u2 as usize, p as usize)
                },
        decreases n - u,
    {
        let k = nodes[u].len();
        let mut p: usize = 0;
        while p < k
            invariant
                n == nodes@.len(),
                u < n,
                k == nodes@[u as int]@.len(),
                p <= k,
                forall|u2: int, p2: int|
                    (0 <= u2 < u && 0 <= p2 < nodes@[u2]@.len()) || (u2 == u && 0 <= p2 < p) ==> {
                        let a = #[trigger] addr(topo_view(nodes@), u2, p2);
                        valid_addr(topo_view(nodes@), a) && addr(topo_view(nodes@), a.0 as int, a.1 as int) == (
                        u2 as usize, p2 as usize)
                    },
            decreases k - p,
        {
            let (v, q) = nodes[u][p];
            assert((v, q) == addr(topo_view(nodes@), u as int, p as int));
            if v >= n || q >= nodes[v].len() || nodes[v][q].0 != u || nodes[v][q].1 != p {
                assert(!symmetric(topo_view(nodes@))) by {
                    assert((v, q) == addr(topo_view(nodes@), u as int, p as int));
                }
                return false;
            }
            p = p + 1;
        }
        u = u + 1;
    }
    true
}

} // verus!
