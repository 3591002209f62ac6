use vstd::prelude::*;
use crate::engine::PnAlgorithm;

verus! {

/// The colour a node plays in the matching algorithm.
#[derive(Clone, Copy, Debug, PartialEq, Eq, Structural)]
pub enum BmmInput {
    White,
    Black,
}

/// A message of the matching algorithm on one port.
#[derive(Clone, Copy, Debug, PartialEq, Eq, Structural)]
pub enum BmmMsg {
    NoMsg,
    Proposal,
    Matched,
    Accept,
}

/// The state of one node. Port sets are flags indexed by port.
#[derive(Debug)]
pub enum BmmState {
    /// A white node with its round counter.
    UnmatchedWhite(usize),
    /// A black node with its round counter, its proposers and its candidates.
    UnmatchedBlack(usize, Vec<bool>, Vec<bool>),
    /// A white node that got an accept on the port; it tells its neighbours next.
    ProvisionallyMatched(usize),
    /// Terminal: not in the matching.
    Unselected,
    /// Terminal: matched to the neighbour on the port.
    Matched(usize),
}

/// The mathematical state of a node, with port sets as sets.
pub enum BmmView {
    UnmatchedWhite(usize),
    UnmatchedBlack(usize, Set<usize>, Set<usize>),
    ProvisionallyMatched(usize),
    Unselected,
    Matched(usize),
}

impl BmmView {
    pub open spec fn is_terminal(self) -> bool {
        self is Unselected || self is Matched
    }
}

/// The ports whose flag is set.
pub open spec fn flag_set(f: Seq<bool>) -> Set<usize> {
    Set::new(|p: usize| (p as int) < f.len() && f[p as int])
}

/// The ports on which message `w` arrived.
pub open spec fn ports_with(data: Seq<BmmMsg>, w: BmmMsg) -> Set<usize> {
    Set::new(|p: usize| (p as int) < data.len() && data[p as int] == w)
}

pub open spec fn is_min(m: Set<usize>, p: usize) -> bool {
    m.contains(p) && forall|q: usize| m.contains(q) ==> p <= q
}

/// The smallest port of a non-empty set.
pub open spec fn set_min(m: Set<usize>) -> usize {
    choose|p: usize| is_min(m, p)
}

/// The next value of a round counter.
pub open spec fn inc(k: usize) -> usize {
    if k < usize::MAX {
        (k + 1) as usize
    } else {
        k
    }
}

/// A copy of the flags.
fn copy_flags(f: &Vec<bool>) -> (r: Vec<bool>)
    ensures
        r@ == f@,
{
    let mut r: Vec<bool> = Vec::new();
    let mut i: usize = 0;
    while i < f.len()
        invariant
            i <= f@.len(),
            r@ == f@.subrange(0, i as int),
        decreases f@.len() - i,
    {
        r.push(f[i]);
        i = i + 1;
        assert(r@ =~= f@.subrange(0, i as int));
    }
    assert(r@ =~= f@);
    r
}

/// `k` messages, `w` on port `p` and `NoMsg` elsewhere.
pub open spec fn one_hot(k: nat, p: int, w: BmmMsg) -> Seq<BmmMsg> {
    Seq::new(k, |q: int| if q == p { w } else { BmmMsg::NoMsg })
}

/// The first port on which an accept arrived.
pub open spec fn first_accept(data: Seq<BmmMsg>) -> usize {
    choose|q: usize|
        (q as int) < data.len() && data[q as int] == BmmMsg::Accept && forall|r: int|
            0 <= r < q ==> data[r] != BmmMsg::Accept
}

pub open spec fn has_accept(data: Seq<BmmMsg>) -> bool {
    exists|q: int| 0 <= q < data.len() && data[q] == BmmMsg::Accept
}

impl View for BmmState {
    type V = BmmView;

    open spec fn view(&self) -> BmmView {
        match self {
            BmmState::UnmatchedWhite(k) => BmmView::UnmatchedWhite(*k),
            BmmState::UnmatchedBlack(k, m, x) => BmmView::UnmatchedBlack(
                *k,
                flag_set(m@),
                flag_set(x@),
            ),
            BmmState::ProvisionallyMatched(p) => BmmView::ProvisionallyMatched(*p),
            BmmState::Unselected => BmmView::Unselected,
            BmmState::Matched(p) => BmmView::Matched(*p),
        }
    }
}

proof fn lemma_set_min(m: Set<usize>, p: usize)
    requires
        is_min(m, p),
    ensures
        set_min(m) == p,
{
    let r = set_min(m);
    assert(is_min(m, r));
    assert(r <= p && p <= r);
}

pub(crate) proof fn lemma_first_accept(data: Seq<BmmMsg>, q: usize)
    requires
        (q as int) < data.len(),
        data[q as int] == BmmMsg::Accept,
        forall|r: int| 0 <= r < q ==> data[r] != BmmMsg::Accept,
    ensures
        first_accept(data) == q,
{
    let r = first_accept(data);
    assert(r < q || q < r || r == q);
}

/// The smallest set flag, if any.
fn first_flag(f: &Vec<bool>) -> (r: Option<usize>)
    ensures
        r is None ==> flag_set(f@) =~= Set::empty(),
        r matches Some(p) ==> is_min(flag_set(f@), p),
{
    let mut i: usize = 0;
    while i < f.len()
        invariant
            i <= f@.len(),
            forall|j: int| 0 <= j < i ==> !f@[j],
        decreases f@.len() - i,
    {
        if f[i] {
            return Some(i);
        }
        i = i + 1;
    }
    None
}

/// The flags with `value` put on every port on which `w` arrived.
fn update_flags(f: &Vec<bool>, data: &[BmmMsg], w: BmmMsg, value: bool) -> (r: Vec<bool>)
    ensures
        flag_set(r@) == (if value {
            flag_set(f@).union(ports_with(data@, w))
        } else {
            flag_set(f@).difference(ports_with(data@, w))
        }),
{
    let n = data.len();
    let len = if f.len() > n {
        f.len()
    } else {
        n
    };
    let mut r: Vec<bool> = Vec::new();
    let mut i: usize = 0;
    while i < len
        invariant
            len >= n,
            len >= f@.len(),
            n == data@.len(),
            i <= len,
            r@.len() == i,
            forall|j: int|
                0 <= j < i ==> #[trigger] r@[j] == if j < n && data@[j] == w {
                    value
                } else {
                    j < f@.len() && f@[j]
                },
        decreases len - i,
    {
        let b = if i < n && data[i] == w {
            value
        } else {
            i < f.len() && f[i]
        };
        r.push(b);
        i = i + 1;
    }
    if value {
        assert(flag_set(r@) =~= flag_set(f@).union(ports_with(data@, w)));
    } else {
        assert(flag_set(r@) =~= flag_set(f@).difference(ports_with(data@, w)));
    }
    r
}

/// `k` messages, `w` on port `p` and `NoMsg` elsewhere.
fn make_one_hot(k: usize, p: usize, w: BmmMsg) -> (r: Vec<BmmMsg>)
    ensures
        r@ == one_hot(k as nat, p as int, w),
{
    let mut r: Vec<BmmMsg> = Vec::new();
    let mut i: usize = 0;
    while i < k
        invariant
            i <= k,
            r@ == one_hot(i as nat, p as int, w),
        decreases k - i,
    {
        r.push(if i == p { w } else { BmmMsg::NoMsg });
        i = i + 1;
        assert(r@ =~= one_hot(i as nat, p as int, w));
    }
    r
}

/// `k` copies of `w`.
fn make_all(k: usize, w: BmmMsg) -> (r: Vec<BmmMsg>)
    ensures
        r@ == Seq::new(k as nat, |q: int| w),
{
    let mut r: Vec<BmmMsg> = Vec::new();
    let mut i: usize = 0;
    while i < k
        invariant
            i <= k,
            r@ == Seq::new(i as nat, |q: int| w),
        decreases k - i,
    {
        r.push(w);
        i = i + 1;
        assert(r@ =~= Seq::new(i as nat, |q: int| w));
    }
    r
}

/// `k` flags, all equal to `b`.
fn make_flags(k: usize, b: bool) -> (r: Vec<bool>)
    ensures
        r@ == Seq::new(k as nat, |q: int| b),
{
    let mut r: Vec<bool> = Vec::new();
    let mut i: usize = 0;
    while i < k
        invariant
            i <= k,
            r@ == Seq::new(i as nat, |q: int| b),
        decreases k - i,
    {
        r.push(b);
        i = i + 1;
        assert(r@ =~= Seq::new(i as nat, |q: int| b));
    }
    r
}

fn next_counter(k: usize) -> (r: usize)
    ensures
        r == inc(k),
{
    if k < usize::MAX {
        k + 1
    } else {
        k
    }
}

/// The bipartite maximal matching algorithm: white nodes propose to their
/// neighbours in port order, black nodes accept the smallest proposing port.
pub struct Bmm;

impl PnAlgorithm for Bmm {
    type Input = BmmInput;
    type State = BmmState;
    type Msg = BmmMsg;

    open spec fn init_spec(ports: nat, i: BmmInput) -> BmmView {
        match i {
            BmmInput::White => BmmView::UnmatchedWhite(1),
            BmmInput::Black => BmmView::UnmatchedBlack(
                1,
                Set::empty(),
                Set::new(|p: usize| (p as int) < ports),
            ),
        }
    }

    open spec fn send_spec(ports: nat, s: BmmView) -> Seq<BmmMsg> {
        match s {
            BmmView::UnmatchedWhite(c) => if c % 2 == 1 && (c + 1) / 2 <= ports {
                one_hot(ports, (c - 1) / 2, BmmMsg::Proposal)
            } else {
                Seq::new(ports, |q: int| BmmMsg::NoMsg)
            },
            BmmView::UnmatchedBlack(c, m, _) => if m != Set::<usize>::empty() && c % 2 == 0 {
                one_hot(ports, set_min(m) as int, BmmMsg::Accept)
            } else {
                Seq::new(ports, |q: int| BmmMsg::NoMsg)
            },
            BmmView::ProvisionallyMatched(_) => Seq::new(ports, |q: int| BmmMsg::Matched),
            _ => Seq::new(ports, |q: int| BmmMsg::NoMsg),
        }
    }

    open spec fn receive_spec(s: BmmView, data: Seq<BmmMsg>) -> BmmView {
        match s {
            BmmView::UnmatchedWhite(c) => if c % 2 == 1 && (c + 1) / 2 > data.len() {
                BmmView::Unselected
            } else if c % 2 == 0 && has_accept(data) {
                BmmView::ProvisionallyMatched(first_accept(data))
            } else {
                BmmView::UnmatchedWhite(inc(c))
            },
            BmmView::UnmatchedBlack(c, m, x) => if c % 2 == 1 {
                BmmView::UnmatchedBlack(
                    inc(c),
                    m.union(ports_with(data, BmmMsg::Proposal)),
                    x.difference(ports_with(data, BmmMsg::Matched)),
                )
            } else if m != Set::<usize>::empty() {
                BmmView::Matched(set_min(m))
            } else if x == Set::<usize>::empty() {
                BmmView::Unselected
            } else {
                BmmView::UnmatchedBlack(inc(c), m, x)
            },
            BmmView::ProvisionallyMatched(p) => BmmView::Matched(p),
            BmmView::Unselected => BmmView::Unselected,
            BmmView::Matched(p) => BmmView::Matched(p),
        }
    }

    proof fn lemma_send_len(ports: nat, s: BmmView) {
    }

    fn init(ports: usize, i: &BmmInput) -> (r: BmmState) {
        match i {
            BmmInput::White => BmmState::UnmatchedWhite(1),
            BmmInput::Black => {
                let m = make_flags(ports, false);
                let x = make_flags(ports, true);
                assert(flag_set(m@) =~= Set::empty());
                assert(flag_set(x@) =~= Set::new(|p: usize| (p as int) < ports));
                BmmState::UnmatchedBlack(1, m, x)
            },
        }
    }

    fn send(ports: usize, s: &BmmState) -> (r: Vec<BmmMsg>) {
        match s {
            BmmState::UnmatchedWhite(c) => {
                if *c % 2 == 1 && *c / 2 < ports {
                    make_one_hot(ports, *c / 2, BmmMsg::Proposal)
                } else {
                    make_all(ports, BmmMsg::NoMsg)
                }
            },
            BmmState::UnmatchedBlack(c, m, _) => {
                if *c % 2 == 0 {
                    match first_flag(m) {
                        Some(p) => {
                            proof {
                                lemma_set_min(flag_set(m@), p);
                            }
                            make_one_hot(ports, p, BmmMsg::Accept)
                        },
                        None => make_all(ports, BmmMsg::NoMsg),
                    }
                } else {
                    make_all(ports, BmmMsg::NoMsg)
                }
            },
            BmmState::ProvisionallyMatched(_) => make_all(ports, BmmMsg::Matched),
            _ => make_all(ports, BmmMsg::NoMsg),
        }
    }

    fn receive(s: &mut BmmState, data: &[BmmMsg]) {
        let n = data.len();
        let next = match &*s {
            BmmState::UnmatchedWhite(c) => {
                let c = *c;
                if c % 2 == 1 && c / 2 >= n {
                    BmmState::Unselected
                } else {
                    let mut found: Option<usize> = None;
                    if c % 2 == 0 {
                        let mut q: usize = 0;
                        while q < n && found.is_none()
                            invariant
                                n == data@.len(),
                                q <= n,
                                found is None ==> forall|r: int|
                                    0 <= r < q ==> data@[r] != BmmMsg::Accept,
                                found matches Some(f) ==> (f as int) < n && data@[f as int]
                                    == BmmMsg::Accept && forall|r: int|
                                    0 <= r < f ==> data@[r] != BmmMsg::Accept,
                            decreases n - q,
                        {
                            if data[q] == BmmMsg::Accept {
                                found = Some(q);
                            }
                            q = q + 1;
                        }
                        proof {
                            if let Some(q) = found {
                                lemma_first_accept(data@, q);
                            }
                        }
                    }
                    match found {
                        Some(q) => BmmState::ProvisionallyMatched(q),
                        None => BmmState::UnmatchedWhite(next_counter(c)),
                    }
                }
            },
            BmmState::UnmatchedBlack(c, m, x) => {
                if *c % 2 == 1 {
                    let m2 = update_flags(m, data, BmmMsg::Proposal, true);
                    let x2 = update_flags(x, data, BmmMsg::Matched, false);
                    BmmState::UnmatchedBlack(next_counter(*c), m2, x2)
                } else {
                    match first_flag(m) {
                        Some(p) => {
                            proof {
                                lemma_set_min(flag_set(m@), p);
                            }
                            BmmState::Matched(p)
                        },
                        None => {
                            match first_flag(x) {
                                None => BmmState::Unselected,
                                Some(_) => {
                                    let m2 = copy_flags(m);
                                    let x2 = copy_flags(x);
                                    BmmState::UnmatchedBlack(next_counter(*c), m2, x2)
                                },
                            }
                        },
                    }
                }
            },
            BmmState::ProvisionallyMatched(p) => BmmState::Matched(*p),
            BmmState::Unselected => BmmState::Unselected,
            BmmState::Matched(p) => BmmState::Matched(*p),
        };
        *s = next;
    }
}

impl BmmState {
    /// Whether the node has reached a terminal state.
    pub fn is_output(&self) -> (r: bool)
        ensures
            r == self@.is_terminal(),
    {
        match self {
            BmmState::Unselected | BmmState::Matched(_) => true,
            _ => false,
        }
    }

    /// Whether a terminated node is in the matching.
    pub fn is_matched(&self) -> (r: bool)
        requires
            self@.is_terminal(),
        ensures
            r == self@ is Matched,
    {
        match self {
            BmmState::Matched(_) => true,
            _ => false,
        }
    }
}

} // verus!
