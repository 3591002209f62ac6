use vstd::prelude::*;
use crate::engine::PnAlgorithm;

verus! {

/// The state of a node of the token counter: whether it holds the token, and
/// how many rounds it has seen.
#[derive(Clone, Copy, Debug, PartialEq, Eq, Structural)]
pub struct CounterState {
    pub holding: bool,
    pub count: u64,
}

/// A message of the token counter.
#[derive(Clone, Copy, Debug, PartialEq, Eq, Structural)]
pub enum CounterMsg {
    Token,
    Empty,
}

impl View for CounterState {
    type V = CounterState;

    open spec fn view(&self) -> CounterState {
        *self
    }
}

/// Whether a token arrived on some port.
pub open spec fn got_token(data: Seq<CounterMsg>) -> bool {
    exists|q: int| 0 <= q < data.len() && data[q] == CounterMsg::Token
}

/// A token passed along the network: its holder sends it on port 0, and every
/// node counts the rounds.
pub struct Counter;

impl PnAlgorithm for Counter {
    type Input = bool;
    type State = CounterState;
    type Msg = CounterMsg;

    open spec fn init_spec(ports: nat, i: bool) -> CounterState {
        CounterState { holding: i, count: 0 }
    }

    open spec fn send_spec(ports: nat, s: CounterState) -> Seq<CounterMsg> {
        Seq::new(
            ports,
            |p: int|
                if s.holding && p == 0 {
                    CounterMsg::Token
                } else {
                    CounterMsg::Empty
                },
        )
    }

    open spec fn receive_spec(s: CounterState, data: Seq<CounterMsg>) -> CounterState {
        CounterState {
            holding: got_token(data),
            count: if s.count < u64::MAX {
                (s.count + 1) as u64
            } else {
                s.count
            },
        }
    }

    proof fn lemma_send_len(ports: nat, s: CounterState) {
    }

    fn init(ports: usize, i: &bool) -> (r: CounterState) {
        CounterState { holding: *i, count: 0 }
    }

    fn send(ports: usize, s: &CounterState) -> (r: Vec<CounterMsg>) {
        let mut r: Vec<CounterMsg> = Vec::new();
        let mut p: usize = 0;
        while p < ports
            invariant
                p <= ports,
                r@ == Self::send_spec(p as nat, *s),
            decreases ports - p,
        {
            r.push(
                if s.holding && p == 0 {
                    CounterMsg::Token
                } else {
                    CounterMsg::Empty
                },
            );
            p = p + 1;
            assert(r@ =~= Self::send_spec(p as nat, *s));
        }
        r
    }

    fn receive(s: &mut CounterState, data: &[CounterMsg]) {
        let mut got = false;
        let mut q: usize = 0;
        while q < data.len()
            invariant
                q <= data@.len(),
                got == exists|r: int| 0 <= r < q && data@[r] == CounterMsg::Token,
            decreases data@.len() - q,
        {
            if data[q] == CounterMsg::Token {
                got = true;
            }
            q = q + 1;
        }
        let count = if s.count < u64::MAX {
            s.count + 1
        } else {
            s.count
        };
        *s = CounterState { holding: got, count };
    }
}

} // verus!
