//! The evaluator: a recursive walk of the tree against an owned, growable
//! byte tape.
//!
//! The tape starts as a single zero cell and grows one zero cell at a time
//! whenever the pointer steps onto its right end; moving left past index
//! zero is the `PointerUnderflow` error. Cell arithmetic wraps modulo 256.
//! `Print` appends the current cell to the run's output. A source program
//! may loop forever, so the caller bounds the run: `fuel` limits how many
//! times any one loop entry may repeat its body, and an exhausted bound is
//! the `OutOfFuel` error. The whole run is specified by `eval_nodes`, a
//! total function of the tree, the starting state and the fuel.

use vstd::arithmetic::div_mod::lemma_fundamental_div_mod;
use vstd::arithmetic::div_mod::lemma_mod_multiples_vanish;
use vstd::prelude::*;

use crate::ast::AstNode;
use crate::ast::Node;
use crate::ast::lemma_nodes_view_index;
use crate::ast::nodes_view;

verus! {

/// Why a run stopped early.
#[derive(Debug, PartialEq, Eq, Copy, Clone, Structural)]
pub enum RunError {
    /// The pointer would have moved below tape index zero.
    PointerUnderflow,
    /// The pointer would have moved past the largest representable tape
    /// index.
    TapeOverflow,
    /// A loop restarted more often than the caller's bound allows.
    OutOfFuel,
}

/// The evaluator's state as mathematics: the tape, the pointer, and the
/// output emitted so far.
#[verifier::ext_equal]
pub struct RunState {
    pub tape: Seq<u8>,
    pub ptr: int,
    pub out: Seq<u8>,
}

/// The outcome of evaluating against a fuel bound.
#[verifier::ext_equal]
pub enum RunOutcome {
    Done(RunState),
    Underflow,
    TapeOverflow,
    OutOfFuel,
}

/// A fresh run: one zero cell, the pointer on it, nothing emitted.
pub open spec fn initial_state() -> RunState {
    RunState { tape: seq![0u8], ptr: 0, out: Seq::empty() }
}

/// The tape extended with zero cells until position `p` exists.
pub open spec fn grow_to(tape: Seq<u8>, p: int) -> Seq<u8> {
    if p + 1 <= tape.len() {
        tape
    } else {
        tape + Seq::new((p + 1 - tape.len()) as nat, |k: int| 0u8)
    }
}

/// A cell after a signed change, wrapped into [0, 255].
pub open spec fn add_wrap(cell: u8, d: int) -> u8 {
    ((cell + d) % 256) as u8
}

/// One node against a state. A positive `Shift` grows the tape cell by
/// cell as the pointer steps onto its end; a negative one must stay at or
/// above index zero. A `Loop` repeats its body while the current cell is
/// nonzero, spending one fuel per repeat.
pub open spec fn eval_node(n: AstNode, st: RunState, fuel: nat) -> RunOutcome
    decreases fuel, n, 0nat,
{
    match n {
        AstNode::Shift(d) => {
            if d >= 0 {
                if st.ptr + d < usize::MAX {
                    RunOutcome::Done(
                        RunState {
                            tape: grow_to(st.tape, st.ptr + d),
                            ptr: st.ptr + d,
                            out: st.out,
                        },
                    )
                } else {
                    RunOutcome::TapeOverflow
                }
            } else {
                if st.ptr + d >= 0 {
                    RunOutcome::Done(RunState { tape: st.tape, ptr: st.ptr + d, out: st.out })
                } else {
                    RunOutcome::Underflow
                }
            }
        },
        AstNode::Add(d) => RunOutcome::Done(
            RunState {
                tape: st.tape.update(st.ptr, add_wrap(st.tape[st.ptr], d)),
                ptr: st.ptr,
                out: st.out,
            },
        ),
        AstNode::Loop(body) => {
            if st.tape[st.ptr] == 0 {
                RunOutcome::Done(st)
            } else if fuel == 0 {
                RunOutcome::OutOfFuel
            } else {
                match eval_nodes(body, 0, st, fuel) {
                    RunOutcome::Done(st2) => eval_node(n, st2, (fuel - 1) as nat),
                    other => other,
                }
            }
        },
        AstNode::Print => RunOutcome::Done(
            RunState { tape: st.tape, ptr: st.ptr, out: st.out.push(st.tape[st.ptr]) },
        ),
        AstNode::Input => RunOutcome::Done(st),
    }
}

/// A node sequence from position `i` onward, threading the state left to
/// right and stopping at the first failure.
pub open spec fn eval_nodes(nodes: Seq<AstNode>, i: int, st: RunState, fuel: nat) -> RunOutcome
    decreases fuel, nodes, nodes.len() - i,
{
    if !(0 <= i < nodes.len()) {
        RunOutcome::Done(st)
    } else {
        match eval_node(nodes[i], st, fuel) {
            RunOutcome::Done(st2) => eval_nodes(nodes, i + 1, st2, fuel),
            other => other,
        }
    }
}

/// A whole program from the fresh state.
pub open spec fn spec_run(nodes: Seq<AstNode>, fuel: nat) -> RunOutcome {
    eval_nodes(nodes, 0, initial_state(), fuel)
}

/// The evaluator's owned state: the tape, the pointer, and the cells
/// printed so far.
pub struct Interpreter {
    pub tape: Vec<u8>,
    pub pointer: usize,
    pub output: Vec<u8>,
}

impl Interpreter {
    /// The state this evaluator is in, as mathematics.
    pub open spec fn state(self) -> RunState {
        RunState { tape: self.tape@, ptr: self.pointer as int, out: self.output@ }
    }

    /// The pointer is a valid tape index.
    pub open spec fn wf(self) -> bool {
        self.pointer < self.tape@.len()
    }

    /// A fresh evaluator in the initial state.
    pub fn new() -> (r: Interpreter)
        ensures
            r.wf(),
            r.state() == initial_state(),
    {
        let mut tape: Vec<u8> = Vec::new();
        tape.push(0);
        let r = Interpreter { tape, pointer: 0, output: Vec::new() };
        proof {
            assert(r.state() =~= initial_state());
            assert(r.state().tape =~= seq![0u8]);
        }
        r
    }

    /// Walks the nodes in order against this state, exactly as
    /// `eval_nodes` describes, reporting the first failure if any.
    #[verifier::loop_isolation(false)]
    #[verifier::rlimit(60)]
    pub fn subinterpret(&mut self, nodes: &Vec<Node>, fuel: u64) -> (r: Result<(), RunError>)
        requires
            old(self).wf(),
        ensures
            final(self).wf(),
            match r {
                Ok(_) => eval_nodes(nodes_view(nodes@), 0, old(self).state(), fuel as nat)
                    == RunOutcome::Done(final(self).state()),
                Err(e) => {
                    let outcome = eval_nodes(nodes_view(nodes@), 0, old(self).state(), fuel as nat);
                    match e {
                        RunError::PointerUnderflow => outcome == RunOutcome::Underflow,
                        RunError::TapeOverflow => outcome == RunOutcome::TapeOverflow,
                        RunError::OutOfFuel => outcome == RunOutcome::OutOfFuel,
                    }
                },
            },
        decreases nodes,
    {
        let ghost nv = nodes_view(nodes@);
        proof {
            lemma_nodes_view_index(nodes@);
        }
        let n: usize = nodes.len();
        let mut idx: usize = 0;
        while idx < n
            invariant
                idx <= n,
                self.wf(),
                eval_nodes(nv, 0, old(self).state(), fuel as nat) == eval_nodes(
                    nv,
                    idx as int,
                    self.state(),
                    fuel as nat,
                ),
            decreases n - idx,
        {
            let ghost st_pre = self.state();
            let node = &nodes[idx];
            match node {
                Node::Shift(dref) => {
                    let d: isize = *dref;
                    if d >= 0 {
                        let du: usize = d as usize;
                        if du >= usize::MAX - self.pointer {
                            return Err(RunError::TapeOverflow);
                        }
                        let newp: usize = self.pointer + du;
                        let ghost tape0 = self.tape@;
                        proof {
                            assert(tape0 + Seq::new(0nat, |k: int| 0u8) =~= tape0);
                        }
                        while self.tape.len() <= newp
                            invariant
                                self.pointer as int == st_pre.ptr,
                                self.output@ == st_pre.out,
                                tape0.len() <= self.tape@.len(),
                                self.tape@.len() <= newp + 1 || self.tape@.len() == tape0.len(),
                                self.tape@ == tape0 + Seq::new(
                                    (self.tape@.len() - tape0.len()) as nat,
                                    |k: int| 0u8,
                                ),
                            decreases newp + 1 - self.tape@.len(),
                        {
                            self.tape.push(0);
                            proof {
                                assert(self.tape@ =~= tape0 + Seq::new(
                                    (self.tape@.len() - tape0.len()) as nat,
                                    |k: int| 0u8,
                                ));
                            }
                        }
                        self.pointer = newp;
                        proof {
                            assert(self.tape@ =~= grow_to(tape0, newp as int));
                            assert(self.state() =~= (RunState {
                                tape: grow_to(st_pre.tape, st_pre.ptr + d),
                                ptr: st_pre.ptr + d,
                                out: st_pre.out,
                            }));
                        }
                    } else {
                        let mag: usize = if d == isize::MIN {
                            (isize::MAX as usize) + 1
                        } else {
                            (-d) as usize
                        };
                        proof {
                            assert(mag == -(d as int));
                        }
                        if mag > self.pointer {
                            return Err(RunError::PointerUnderflow);
                        }
                        self.pointer = self.pointer - mag;
                        proof {
                            assert(self.state() =~= (RunState {
                                tape: st_pre.tape,
                                ptr: st_pre.ptr + d,
                                out: st_pre.out,
                            }));
                        }
                    }
                },
                Node::Add(dref) => {
                    let d: isize = *dref;
                    let cell: u8 = self.tape[self.pointer];
                    let add: usize = if d >= 0 {
                        let du: usize = d as usize;
                        proof {
                            lemma_fundamental_div_mod(du as int, 256);
                            lemma_mod_multiples_vanish(
                                du as int / 256,
                                cell + (du as int % 256),
                                256,
                            );
                        }
                        du % 256
                    } else {
                        let mag: usize = if d == isize::MIN {
                            (isize::MAX as usize) + 1
                        } else {
                            (-d) as usize
                        };
                        proof {
                            assert(mag == -(d as int));
                            lemma_fundamental_div_mod(mag as int, 256);
                            lemma_mod_multiples_vanish(
                                -(mag as int / 256),
                                cell - (mag as int % 256),
                                256,
                            );
                            if mag as int % 256 > 0 {
                                lemma_mod_multiples_vanish(1, cell - (mag as int % 256), 256);
                            }
                        }
                        (256 - mag % 256) % 256
                    };
                    let s: usize = (cell as usize + add) % 256;
                    proof {
                        lemma_mod_multiples_vanish(1, cell - 256 + add, 256);
                        assert(s == add_wrap(cell, d as int));
                    }
                    self.tape[self.pointer] = s as u8;
                    proof {
                        assert(self.state() =~= (RunState {
                            tape: st_pre.tape.update(st_pre.ptr, add_wrap(cell, d as int)),
                            ptr: st_pre.ptr,
                            out: st_pre.out,
                        }));
                    }
                },
                Node::Loop(body) => {
                    let ghost bodyv = nodes_view(body@);
                    let ghost lnode = AstNode::Loop(bodyv);
                    proof {
                        assert(nv[idx as int] == lnode);
                    }
                    let mut f: u64 = fuel;
                    while self.tape[self.pointer] > 0
                        invariant
                            self.wf(),
                            eval_node(lnode, st_pre, fuel as nat) == eval_node(
                                lnode,
                                self.state(),
                                f as nat,
                            ),
                        decreases f,
                    {
                        if f == 0 {
                            return Err(RunError::OutOfFuel);
                        }
                        let ghost st_it = self.state();
                        match self.subinterpret(body, f) {
                            Ok(_) => {
                                proof {
                                    assert(eval_node(lnode, st_it, f as nat) == eval_node(
                                        lnode,
                                        self.state(),
                                        (f - 1) as nat,
                                    ));
                                }
                                f = f - 1;
                            },
                            Err(e) => {
                                return Err(e);
                            },
                        }
                    }
                    proof {
                        assert(eval_node(lnode, self.state(), f as nat) == RunOutcome::Done(
                            self.state(),
                        ));
                    }
                },
                Node::Print => {
                    let cell: u8 = self.tape[self.pointer];
                    self.output.push(cell);
                    proof {
                        assert(self.state() =~= (RunState {
                            tape: st_pre.tape,
                            ptr: st_pre.ptr,
                            out: st_pre.out.push(st_pre.tape[st_pre.ptr]),
                        }));
                    }
                },
                Node::Input => {},
            }
            proof {
                assert(eval_node(nv[idx as int], st_pre, fuel as nat) == RunOutcome::Done(
                    self.state(),
                ));
            }
            idx = idx + 1;
        }
        Ok(())
    }
}

/// Law: whatever the sign or size of the change, a cell after `Add` is
/// always a value in [0, 255]: the sum is reduced modulo 256.
pub proof fn lemma_add_wrap_in_range(cell: u8, d: int)
    ensures
        0 <= add_wrap(cell, d) <= 255,
        add_wrap(cell, d) == (cell + d) % 256,
{
}

/// The tape invariant: the pointer is a valid index into the tape.
pub open spec fn state_wf(st: RunState) -> bool {
    0 <= st.ptr < st.tape.len()
}

/// Law: evaluation keeps the tape invariant. From any state whose pointer
/// is on the tape, a finished node leaves the pointer on the tape again —
/// a positive `Shift` because the tape grew under it, a negative one
/// because it would otherwise have been an underflow.
pub proof fn lemma_eval_node_preserves_wf(n: AstNode, st: RunState, fuel: nat)
    requires
        state_wf(st),
    ensures
        eval_node(n, st, fuel) matches RunOutcome::Done(st2) ==> state_wf(st2),
    decreases fuel, n, 0nat,
{
    match n {
        AstNode::Loop(body) => {
            if st.tape[st.ptr] != 0 && fuel > 0 {
                lemma_eval_nodes_preserves_wf(body, 0, st, fuel);
                match eval_nodes(body, 0, st, fuel) {
                    RunOutcome::Done(st2) => {
                        lemma_eval_node_preserves_wf(n, st2, (fuel - 1) as nat);
                    },
                    _ => {},
                }
            }
        },
        _ => {},
    }
}

/// Law: a finished node sequence keeps the tape invariant, node by node.
pub proof fn lemma_eval_nodes_preserves_wf(nodes: Seq<AstNode>, i: int, st: RunState, fuel: nat)
    requires
        state_wf(st),
    ensures
        eval_nodes(nodes, i, st, fuel) matches RunOutcome::Done(st2) ==> state_wf(st2),
    decreases fuel, nodes, nodes.len() - i,
{
    if 0 <= i < nodes.len() {
        lemma_eval_node_preserves_wf(nodes[i], st, fuel);
        match eval_node(nodes[i], st, fuel) {
            RunOutcome::Done(st2) => {
                lemma_eval_nodes_preserves_wf(nodes, i + 1, st2, fuel);
            },
            _ => {},
        }
    }
}

proof fn lemma_eval_node_fuel_monotone(n: AstNode, st: RunState, f1: nat, f2: nat)
    requires
        f1 <= f2,
    ensures
        eval_node(n, st, f1) != RunOutcome::OutOfFuel ==> eval_node(n, st, f2) == eval_node(
            n,
            st,
            f1,
        ),
    decreases f1, n, 0nat,
{
    match n {
        AstNode::Loop(body) => {
            if st.tape[st.ptr] != 0 && f1 > 0 {
                lemma_eval_nodes_fuel_monotone(body, 0, st, f1, f2);
                match eval_nodes(body, 0, st, f1) {
                    RunOutcome::Done(st2) => {
                        lemma_eval_node_fuel_monotone(n, st2, (f1 - 1) as nat, (f2 - 1) as nat);
                    },
                    _ => {},
                }
            }
        },
        _ => {},
    }
}

proof fn lemma_eval_nodes_fuel_monotone(
    nodes: Seq<AstNode>,
    i: int,
    st: RunState,
    f1: nat,
    f2: nat,
)
    requires
        f1 <= f2,
    ensures
        eval_nodes(nodes, i, st, f1) != RunOutcome::OutOfFuel ==> eval_nodes(nodes, i, st, f2)
            == eval_nodes(nodes, i, st, f1),
    decreases f1, nodes, nodes.len() - i,
{
    if 0 <= i < nodes.len() {
        lemma_eval_node_fuel_monotone(nodes[i], st, f1, f2);
        match eval_node(nodes[i], st, f1) {
            RunOutcome::Done(st2) => {
                lemma_eval_nodes_fuel_monotone(nodes, i + 1, st2, f1, f2);
            },
            _ => {},
        }
    }
}

/// Law: the fuel bound only decides whether a run finishes; it never
/// changes what a finished run computes. An outcome other than
/// `OutOfFuel` — the final state or the error — persists unchanged under
/// every larger bound.
pub proof fn lemma_run_fuel_monotone(nodes: Seq<AstNode>, f1: nat, f2: nat)
    requires
        f1 <= f2,
        spec_run(nodes, f1) != RunOutcome::OutOfFuel,
    ensures
        spec_run(nodes, f2) == spec_run(nodes, f1),
{
    lemma_eval_nodes_fuel_monotone(nodes, 0, initial_state(), f1, f2);
}

/// The state after `k` passes of a loop body from `st`, each pass costing
/// one unit of the fuel the remaining passes run under, or the first
/// failure among them.
pub open spec fn loop_iter(body: Seq<AstNode>, st: RunState, k: nat, fuel: nat) -> RunOutcome
    decreases k,
{
    if k == 0 {
        RunOutcome::Done(st)
    } else {
        match eval_nodes(body, 0, st, fuel) {
            RunOutcome::Done(st2) => loop_iter(body, st2, (k - 1) as nat, (fuel - 1) as nat),
            other => other,
        }
    }
}

/// Law: a loop whose body leaves the current cell nonzero for the first
/// `k - 1` passes and zero after the `k`-th runs its body exactly `k`
/// times and then falls through: under enough fuel, the loop's outcome is
/// precisely the state the `k`-th pass reached.
pub proof fn lemma_loop_runs_k_times(
    body: Seq<AstNode>,
    st: RunState,
    k: nat,
    fuel: nat,
    stk: RunState,
)
    requires
        k <= fuel,
        loop_iter(body, st, k, fuel) == RunOutcome::Done(stk),
        forall|j: nat|
            j < k ==> (#[trigger] loop_iter(body, st, j, fuel) matches RunOutcome::Done(sj)
                && sj.tape[sj.ptr] != 0),
        stk.tape[stk.ptr] == 0,
    ensures
        eval_node(AstNode::Loop(body), st, fuel) == RunOutcome::Done(stk),
    decreases k,
{
    if k == 0 {
        assert(loop_iter(body, st, 0, fuel) == RunOutcome::Done(st));
    } else {
        assert(loop_iter(body, st, 0, fuel) matches RunOutcome::Done(sj) && sj.tape[sj.ptr]
            != 0);
        assert(st.tape[st.ptr] != 0);
        match eval_nodes(body, 0, st, fuel) {
            RunOutcome::Done(st1) => {
                assert forall|j: nat| j < k - 1 implies (#[trigger] loop_iter(
                    body,
                    st1,
                    j,
                    (fuel - 1) as nat,
                ) matches RunOutcome::Done(sj) && sj.tape[sj.ptr] != 0) by {
                    assert(loop_iter(body, st, j + 1, fuel) == loop_iter(
                        body,
                        st1,
                        j,
                        (fuel - 1) as nat,
                    ));
                    assert(loop_iter(body, st, j + 1, fuel) matches RunOutcome::Done(sj)
                        && sj.tape[sj.ptr] != 0);
                }
                lemma_loop_runs_k_times(body, st1, (k - 1) as nat, (fuel - 1) as nat, stk);
            },
            _ => {},
        }
    }
}

/// Runs a parsed program against a fresh tape and returns the cells it
/// printed, in order. `fuel` bounds how many times any one loop entry may
/// repeat its body; every terminating program succeeds under a large
/// enough bound, and the errors say exactly which limit a run hit.
pub fn interpret(nodes: Vec<Node>, fuel: u64) -> (r: Result<Vec<u8>, RunError>)
    ensures
        match r {
            Ok(out) => spec_run(nodes_view(nodes@), fuel as nat) matches RunOutcome::Done(st)
                && st.out == out@,
            Err(e) => {
                let outcome = spec_run(nodes_view(nodes@), fuel as nat);
                match e {
                    RunError::PointerUnderflow => outcome == RunOutcome::Underflow,
                    RunError::TapeOverflow => outcome == RunOutcome::TapeOverflow,
                    RunError::OutOfFuel => outcome == RunOutcome::OutOfFuel,
                }
            },
        },
{
    let mut interpreter: Interpreter = Interpreter::new();
    match interpreter.subinterpret(&nodes, fuel) {
        Ok(_) => Ok(interpreter.output),
        Err(e) => Err(e),
    }
}

} // verus!
