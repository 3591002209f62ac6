use vstd::prelude::*;
use crate::bmm::{Bmm, BmmInput, BmmMsg, BmmState, BmmView};
use crate::engine::PnAlgorithm;

verus! {

/// A node of the vertex-cover algorithm: a white and a black instance of the
/// matching algorithm, cross-wired so that together they run the matching on
/// the bipartite double cover of the network.
#[derive(Debug)]
pub struct Vc3State {
    pub white: BmmState,
    pub black: BmmState,
}

impl View for Vc3State {
    type V = (BmmView, BmmView);

    open spec fn view(&self) -> (BmmView, BmmView) {
        (self.white@, self.black@)
    }
}

/// Whether a node with both instances in these states belongs to the cover.
pub open spec fn in_cover(s: (BmmView, BmmView)) -> bool {
    s.0 is Matched || s.1 is Matched
}

pub open spec fn vc3_terminal(s: (BmmView, BmmView)) -> bool {
    s.0.is_terminal() && s.1.is_terminal()
}

/// The first components of a sequence of pairs.
pub open spec fn firsts(data: Seq<(BmmMsg, BmmMsg)>) -> Seq<BmmMsg> {
    Seq::new(data.len(), |i: int| data[i].0)
}

/// The second components of a sequence of pairs.
pub open spec fn seconds(data: Seq<(BmmMsg, BmmMsg)>) -> Seq<BmmMsg> {
    Seq::new(data.len(), |i: int| data[i].1)
}

/// The 3-approximate vertex cover algorithm.
pub struct Vc3;

impl PnAlgorithm for Vc3 {
    type Input = ();
    type State = Vc3State;
    type Msg = (BmmMsg, BmmMsg);

    open spec fn init_spec(ports: nat, i: ()) -> (BmmView, BmmView) {
        (Bmm::init_spec(ports, BmmInput::White), Bmm::init_spec(ports, BmmInput::Black))
    }

    open spec fn send_spec(ports: nat, s: (BmmView, BmmView)) -> Seq<(BmmMsg, BmmMsg)> {
        Seq::new(
            ports,
            |p: int| (Bmm::send_spec(ports, s.0)[p], Bmm::send_spec(ports, s.1)[p]),
        )
    }

    /// The white instance hears what the neighbours' black instances sent, and
    /// the black instance what their white instances sent.
    open spec fn receive_spec(s: (BmmView, BmmView), data: Seq<(BmmMsg, BmmMsg)>) -> (
        BmmView,
        BmmView,
    ) {
        (Bmm::receive_spec(s.0, seconds(data)), Bmm::receive_spec(s.1, firsts(data)))
    }

    proof fn lemma_send_len(ports: nat, s: (BmmView, BmmView)) {
    }

    fn init(ports: usize, i: &()) -> (r: Vc3State) {
        Vc3State {
            white: Bmm::init(ports, &BmmInput::White),
            black: Bmm::init(ports, &BmmInput::Black),
        }
    }

    fn send(ports: usize, s: &Vc3State) -> (r: Vec<(BmmMsg, BmmMsg)>) {
        let w = Bmm::send(ports, &s.white);
        let b = Bmm::send(ports, &s.black);
        let mut r: Vec<(BmmMsg, BmmMsg)> = Vec::new();
        let mut p: usize = 0;
        while p < ports
            invariant
                w@.len() == ports,
                b@.len() == ports,
                p <= ports,
                r@ == Seq::new(p as nat, |q: int| (w@[q], b@[q])),
            decreases ports - p,
        {
            r.push((w[p], b[p]));
            p = p + 1;
            assert(r@ =~= Seq::new(p as nat, |q: int| (w@[q], b@[q])));
        }
        assert(r@ =~= Self::send_spec(ports as nat, s@));
        r
    }

    fn receive(s: &mut Vc3State, data: &[(BmmMsg, BmmMsg)]) {
        let mut l: Vec<BmmMsg> = Vec::new();
        let mut r: Vec<BmmMsg> = Vec::new();
        let mut p: usize = 0;
        while p < data.len()
            invariant
                p <= data@.len(),
                l@ == firsts(data@).subrange(0, p as int),
                r@ == seconds(data@).subrange(0, p as int),
            decreases data@.len() - p,
        {
            l.push(data[p].0);
            r.push(data[p].1);
            p = p + 1;
            assert(l@ =~= firsts(data@).subrange(0, p as int));
            assert(r@ =~= seconds(data@).subrange(0, p as int));
        }
        assert(l@ =~= firsts(data@));
        assert(r@ =~= seconds(data@));
        Bmm::receive(&mut s.white, r.as_slice());
        Bmm::receive(&mut s.black, l.as_slice());
    }
}

impl Vc3State {
    /// Whether both instances have reached a terminal state.
    pub fn is_output(&self) -> (r: bool)
        ensures
            r == vc3_terminal(self@),
    {
        self.white.is_output() && self.black.is_output()
    }
}

/// Whether every node has terminated.
pub fn all_output(states: &[Vc3State]) -> (r: bool)
    ensures
        r == forall|i: int| 0 <= i < states@.len() ==> vc3_terminal(#[trigger] states@[i]@),
{
    let mut i: usize = 0;
    while i < states.len()
        invariant
            i <= states@.len(),
            forall|j: int| 0 <= j < i ==> vc3_terminal(#[trigger] states@[j]@),
        decreases states@.len() - i,
    {
        if !states[i].is_output() {
            return false;
        }
        i = i + 1;
    }
    true
}

/// The nodes of the cover, in increasing order: those with at least one
/// matched instance.
pub fn vertex_cover(states: &[Vc3State]) -> (r: Vec<usize>)
    requires
        forall|i: int| 0 <= i < states@.len() ==> vc3_terminal(#[trigger] states@[i]@),
    ensures
        forall|j: int| 0 <= j < r@.len() ==> (#[trigger] r@[j] as int) < states@.len(),
        forall|a: int, b: int| 0 <= a < b < r@.len() ==> r@[a] < r@[b],
        forall|i: int|
            0 <= i < states@.len() ==> (in_cover(#[trigger] states@[i]@) <==> r@.contains(
                i as usize,
            )),
{
    let mut r: Vec<usize> = Vec::new();
    let mut i: usize = 0;
    while i < states.len()
        invariant
            i <= states@.len(),
            forall|i2: int| 0 <= i2 < states@.len() ==> vc3_terminal(#[trigger] states@[i2]@),
            forall|j: int| 0 <= j < r@.len() ==> (#[trigger] r@[j] as int) < i,
            forall|a: int, b: int| 0 <= a < b < r@.len() ==> r@[a] < r@[b],
            forall|i2: int|
                0 <= i2 < i ==> (in_cover(#[trigger] states@[i2]@) <==> r@.contains(i2 as usize)),
        decreases states@.len() - i,
    {
        let ghost r0 = r@;
        assert(vc3_terminal(states@[i as int]@));
        if states[i].white.is_matched() || states[i].black.is_matched() {
            r.push(i);
            assert forall|i2: int| 0 <= i2 < i implies (in_cover(#[trigger] states@[i2]@) <==> r@.contains(i2 as usize)) by {
                if r0.contains(i2 as usize) {
                    let j = choose|j: int| 0 <= j < r0.len() && r0[j] == i2 as usize;
                    assert(r@[j] == i2 as usize);
                }
                if r@.contains(i2 as usize) {
                    let j = choose|j: int| 0 <= j < r@.len() && r@[j] == i2 as usize;
                    if j == r0.len() {
                    } else {
                        assert(r0[j] == i2 as usize);
                    }
                }
            }
            assert(r@[r0.len() as int] == i);
        } else {
            assert(!r@.contains(i));
        }
        i = i + 1;
    }
    r
}

} // verus!
