//! The compiled automaton and Thompson's construction.

use vstd::prelude::*;

use crate::regular_expressions::REType;
use crate::semantics::accepts;
use crate::semantics::chr_t;
use crate::semantics::eps_t;
use crate::semantics::TransV;

verus! {

/// One transition of the automaton: a source state, a target state, and the
/// symbol consumed. `None` is an epsilon transition; it consumes no input
/// and can never collide with an alphabet character.
#[derive(Copy, Clone)]
pub struct Transition {
    pub from: i32,
    pub to: i32,
    pub symbol: Option<char>,
}

impl View for Transition {
    type V = TransV;

    open spec fn view(&self) -> TransV {
        TransV { from: self.from as int, to: self.to as int, sym: self.symbol }
    }
}

/// A sequence of transitions viewed abstractly.
pub open spec fn view_all(s: Seq<Transition>) -> Seq<TransV> {
    s.map_values(|t: Transition| t@)
}

impl Transition {
    /// Whether this is an epsilon transition.
    pub fn is_epsilon(&self) -> (r: bool)
        ensures
            r == (self.symbol is None),
    {
        match self.symbol {
            Option::None => true,
            Option::Some(_) => false,
        }
    }

    /// The state this transition leads to.
    pub fn to_state(&self) -> (r: i32)
        ensures
            r == self.to,
    {
        self.to
    }

    /// Whether this transition leaves state `_from` on reading `_char`.
    pub fn trigger(&self, _from: i32, _char: char) -> (r: bool)
        ensures
            r == (self.from == _from && self.symbol == Some(_char)),
    {
        match self.symbol {
            Option::Some(c) => self.from == _from && c == _char,
            Option::None => false,
        }
    }
}

/// A nondeterministic finite automaton: a transition relation plus one
/// initial and one final state. State identifiers are dense integers
/// assigned by one construction run, starting at 0.
pub struct NFA {
    pub transitions: Vec<Transition>,
    pub init_state: i32,
    pub final_state: i32,
}

/// The automaton `n` accepts the word `w`.
pub open spec fn nfa_accepts(n: NFA, w: Seq<char>) -> bool {
    accepts(view_all(n.transitions@), n.init_state as int, n.final_state as int, w)
}

/// What one construction step yields: the transitions added, the final
/// state of the fragment, and the next unused state identifier.
pub struct Frag {
    pub trans: Seq<TransV>,
    pub fin: int,
    pub next: int,
}

/// How many fresh state identifiers the construction of `t` consumes, its
/// already-allocated initial state not counted.
pub open spec fn states_needed(t: REType) -> nat
    decreases t,
{
    match t {
        REType::Phi {} => 1,
        REType::Eps {} => 1,
        REType::Char { .. } => 1,
        REType::Alt { left, right } => 3 + states_needed(*left) + states_needed(*right),
        REType::Conc { left, right } => states_needed(*left) + states_needed(*right),
        REType::Star { val } => 2 + states_needed(*val),
    }
}

pub proof fn lemma_states_needed_pos(t: REType)
    ensures
        states_needed(t) >= 1,
    decreases t,
{
    match t {
        REType::Conc { left, right } => {
            lemma_states_needed_pos(*left);
        },
        _ => {},
    }
}

/// Thompson's construction of the fragment for `t`, with `start` its
/// already-allocated initial state and `next` the next fresh identifier.
/// Each operator composes the fragments of its children with epsilon
/// transitions; concatenation splices the right fragment onto the left
/// fragment's final state and adds nothing else.
pub open spec fn build_spec(t: REType, start: int, next: int) -> Frag
    decreases t,
{
    match t {
        REType::Phi {} => (Frag { trans: Seq::empty(), fin: next, next: next + 1 }),
        REType::Eps {} => (Frag { trans: seq![eps_t(start, next)], fin: next, next: next + 1 }),
        REType::Char { val } => (Frag {
            trans: seq![chr_t(start, next, val)],
            fin: next,
            next: next + 1,
        }),
        REType::Alt { left, right } => {
            let lstart = next;
            let fl = build_spec(*left, lstart, next + 1);
            let rstart = fl.next;
            let fr = build_spec(*right, rstart, fl.next + 1);
            let fin = fr.next;
            Frag {
                trans: fl.trans + fr.trans + seq![
                    eps_t(start, lstart),
                    eps_t(start, rstart),
                    eps_t(fl.fin, fin),
                    eps_t(fr.fin, fin),
                ],
                fin: fin,
                next: fin + 1,
            }
        },
        REType::Conc { left, right } => {
            let fl = build_spec(*left, start, next);
            let fr = build_spec(*right, fl.fin, fl.next);
            Frag { trans: fl.trans + fr.trans, fin: fr.fin, next: fr.next }
        },
        REType::Star { val } => {
            let istart = next;
            let fi = build_spec(*val, istart, next + 1);
            let fin = fi.next;
            Frag {
                trans: fi.trans + seq![
                    eps_t(start, istart),
                    eps_t(start, fin),
                    eps_t(fi.fin, istart),
                    eps_t(fi.fin, fin),
                ],
                fin: fin,
                next: fin + 1,
            }
        },
    }
}

/// Construction consumes exactly `states_needed(t)` fresh identifiers.
pub proof fn lemma_build_next(t: REType, start: int, next: int)
    ensures
        build_spec(t, start, next).next == next + states_needed(t),
    decreases t,
{
    match t {
        REType::Alt { left, right } => {
            lemma_build_next(*left, next, next + 1);
            let fl = build_spec(*left, next, next + 1);
            lemma_build_next(*right, fl.next, fl.next + 1);
        },
        REType::Conc { left, right } => {
            lemma_build_next(*left, start, next);
            let fl = build_spec(*left, start, next);
            lemma_build_next(*right, fl.fin, fl.next);
        },
        REType::Star { val } => {
            lemma_build_next(*val, next, next + 1);
        },
        _ => {},
    }
}

/// Where the built fragment's states lie: the final state is fresh and
/// below the next counter value; every transition leaves the given initial
/// state or a fresh state and enters a fresh state, so nothing re-enters
/// the initial state; and no transition leaves the fragment's own final
/// state (a later splice may add one, which is by design).
pub proof fn lemma_build_bounds(t: REType, start: int, next: int)
    requires
        start < next,
    ensures
        ({
            let f = build_spec(t, start, next);
            &&& next <= f.fin < f.next
            &&& forall|i: int|
                0 <= i < f.trans.len() ==> ((#[trigger] f.trans[i]).from == start || next
                    <= f.trans[i].from < f.next)
            &&& forall|i: int| 0 <= i < f.trans.len() ==> next <= (#[trigger] f.trans[i]).to
                < f.next
            &&& forall|i: int| 0 <= i < f.trans.len() ==> (#[trigger] f.trans[i]).from != f.fin
        }),
    decreases t,
{
    match t {
        REType::Alt { left, right } => {
            lemma_build_bounds(*left, next, next + 1);
            let fl = build_spec(*left, next, next + 1);
            lemma_build_bounds(*right, fl.next, fl.next + 1);
        },
        REType::Conc { left, right } => {
            lemma_build_bounds(*left, start, next);
            let fl = build_spec(*left, start, next);
            lemma_build_bounds(*right, fl.fin, fl.next);
        },
        REType::Star { val } => {
            lemma_build_bounds(*val, next, next + 1);
        },
        _ => {},
    }
}

/// One transition with its states renamed by `f`.
pub open spec fn relabel_t(f: spec_fn(int) -> int, t: TransV) -> TransV {
    TransV { from: f(t.from), to: f(t.to), sym: t.sym }
}

/// Construction does not depend on the concrete state identifiers: building
/// from another initial state and another fresh-identifier origin yields
/// the same fragment with every state renamed by the map that sends the old
/// initial state to the new one and shifts the fresh range.
pub proof fn lemma_build_relabel(
    t: REType,
    a1: int,
    m1: int,
    a2: int,
    m2: int,
    f: spec_fn(int) -> int,
)
    requires
        f(a1) == a2,
        forall|x: int| x >= m1 ==> #[trigger] f(x) == x - m1 + m2,
    ensures
        ({
            let f1 = build_spec(t, a1, m1);
            let f2 = build_spec(t, a2, m2);
            &&& f2.trans == f1.trans.map_values(|tv: TransV| relabel_t(f, tv))
            &&& f2.fin == f(f1.fin)
            &&& f1.fin >= m1
            &&& f2.next - m2 == f1.next - m1
            &&& f1.next > m1
        }),
    decreases t,
{
    let f1 = build_spec(t, a1, m1);
    let f2 = build_spec(t, a2, m2);
    let rl = |tv: TransV| relabel_t(f, tv);
    match t {
        REType::Phi {} => {
            assert(f2.trans =~= f1.trans.map_values(rl));
        },
        REType::Eps {} => {
            assert(f2.trans =~= f1.trans.map_values(rl));
        },
        REType::Char { .. } => {
            assert(f2.trans =~= f1.trans.map_values(rl));
        },
        REType::Alt { left, right } => {
            lemma_build_relabel(*left, m1, m1 + 1, m2, m2 + 1, f);
            let l1 = build_spec(*left, m1, m1 + 1);
            let l2 = build_spec(*left, m2, m2 + 1);
            lemma_build_relabel(*right, l1.next, l1.next + 1, l2.next, l2.next + 1, f);
            assert(f2.trans =~= f1.trans.map_values(rl));
        },
        REType::Conc { left, right } => {
            lemma_build_relabel(*left, a1, m1, a2, m2, f);
            let l1 = build_spec(*left, a1, m1);
            let l2 = build_spec(*left, a2, m2);
            lemma_build_relabel(*right, l1.fin, l1.next, l2.fin, l2.next, f);
            assert(f2.trans =~= f1.trans.map_values(rl));
        },
        REType::Star { val } => {
            lemma_build_relabel(*val, m1, m1 + 1, m2, m2 + 1, f);
            assert(f2.trans =~= f1.trans.map_values(rl));
        },
    }
}

/// The automaton built for the whole expression `t`: initial state 0, the
/// fresh identifiers starting at 1.
pub open spec fn build_accepts(t: REType, w: Seq<char>) -> bool {
    let f = build_spec(t, 0, 1);
    accepts(f.trans, 0, f.fin, w)
}

/// The supply of fresh state identifiers for one construction run.
struct TransformWorker {
    name_supply: i32,
}

impl TransformWorker {
    /// Hand out the next unused state identifier.
    fn fresh(&mut self) -> (r: i32)
        requires
            old(self).name_supply < i32::MAX,
        ensures
            r == old(self).name_supply,
            final(self).name_supply == old(self).name_supply + 1,
    {
        let value = self.name_supply;
        self.name_supply = self.name_supply + 1;
        value
    }

    /// Build the fragment for `regular_expression` with `start` as its
    /// initial state, consuming fresh identifiers from the supply.
    fn transform_worker(&mut self, regular_expression: &REType, start: i32) -> (n: NFA)
        requires
            old(self).name_supply as int + states_needed(*regular_expression) <= i32::MAX as int,
        ensures
            ({
                let f = build_spec(
                    *regular_expression,
                    start as int,
                    old(self).name_supply as int,
                );
                &&& view_all(n.transitions@) == f.trans
                &&& n.init_state == start
                &&& n.final_state as int == f.fin
                &&& final(self).name_supply as int == f.next
            }),
        decreases *regular_expression,
    {
        proof {
            lemma_states_needed_pos(*regular_expression);
        }
        match regular_expression {
            REType::Phi {} => {
                let stop = self.fresh();
                let transitions: Vec<Transition> = Vec::new();
                proof {
                    assert(view_all(transitions@) =~= Seq::<TransV>::empty());
                }
                NFA { transitions, init_state: start, final_state: stop }
            },
            REType::Eps {} => {
                let stop = self.fresh();
                let mut transitions: Vec<Transition> = Vec::new();
                transitions.push(Transition { from: start, to: stop, symbol: None });
                proof {
                    assert(view_all(transitions@) =~= seq![eps_t(start as int, stop as int)]);
                }
                NFA { transitions, init_state: start, final_state: stop }
            },
            REType::Char { val } => {
                let stop = self.fresh();
                let mut transitions: Vec<Transition> = Vec::new();
                transitions.push(Transition { from: start, to: stop, symbol: Some(*val) });
                proof {
                    assert(view_all(transitions@) =~= seq![
                        chr_t(start as int, stop as int, *val),
                    ]);
                }
                NFA { transitions, init_state: start, final_state: stop }
            },
            REType::Alt { left, right } => {
                let ghost supply0 = old(self).name_supply as int;
                proof {
                    lemma_states_needed_pos(**left);
                    lemma_states_needed_pos(**right);
                    lemma_build_next(**left, supply0, supply0 + 1);
                    let fl = build_spec(**left, supply0, supply0 + 1);
                    lemma_build_next(**right, fl.next, fl.next + 1);
                }
                let lstart = self.fresh();
                let nl = self.transform_worker(left, lstart);
                let rstart = self.fresh();
                let nr = self.transform_worker(right, rstart);
                let stop = self.fresh();
                let mut transitions = nl.transitions;
                let mut right_transitions = nr.transitions;
                transitions.append(&mut right_transitions);
                transitions.push(Transition { from: start, to: lstart, symbol: None });
                transitions.push(Transition { from: start, to: rstart, symbol: None });
                transitions.push(Transition { from: nl.final_state, to: stop, symbol: None });
                transitions.push(Transition { from: nr.final_state, to: stop, symbol: None });
                proof {
                    let f = build_spec(
                        *regular_expression,
                        start as int,
                        old(self).name_supply as int,
                    );
                    assert(view_all(transitions@) =~= f.trans);
                }
                NFA { transitions, init_state: start, final_state: stop }
            },
            REType::Conc { left, right } => {
                let ghost supply0 = old(self).name_supply as int;
                proof {
                    lemma_states_needed_pos(**left);
                    lemma_states_needed_pos(**right);
                    lemma_build_next(**left, start as int, supply0);
                    let fl = build_spec(**left, start as int, supply0);
                    lemma_build_next(**right, fl.fin, fl.next);
                }
                let nl = self.transform_worker(left, start);
                let nr = self.transform_worker(right, nl.final_state);
                let mut transitions = nl.transitions;
                let mut right_transitions = nr.transitions;
                transitions.append(&mut right_transitions);
                proof {
                    let f = build_spec(
                        *regular_expression,
                        start as int,
                        old(self).name_supply as int,
                    );
                    assert(view_all(transitions@) =~= f.trans);
                }
                NFA { transitions, init_state: start, final_state: nr.final_state }
            },
            REType::Star { val } => {
                let ghost supply0 = old(self).name_supply as int;
                proof {
                    lemma_states_needed_pos(**val);
                    lemma_build_next(**val, supply0, supply0 + 1);
                }
                let istart = self.fresh();
                let ni = self.transform_worker(val, istart);
                let stop = self.fresh();
                let mut transitions = ni.transitions;
                transitions.push(Transition { from: start, to: istart, symbol: None });
                transitions.push(Transition { from: start, to: stop, symbol: None });
                transitions.push(Transition { from: ni.final_state, to: istart, symbol: None });
                transitions.push(Transition { from: ni.final_state, to: stop, symbol: None });
                proof {
                    let f = build_spec(
                        *regular_expression,
                        start as int,
                        old(self).name_supply as int,
                    );
                    assert(view_all(transitions@) =~= f.trans);
                }
                NFA { transitions, init_state: start, final_state: stop }
            },
        }
    }
}

impl NFA {
    /// Compile a regular expression to an automaton by Thompson's
    /// construction. The initial state is 0 and every state identifier is
    /// assigned by one monotone counter.
    pub fn new(regular_expression: REType) -> (n: NFA)
        requires
            1 + states_needed(regular_expression) <= i32::MAX as int,
        ensures
            ({
                let f = build_spec(regular_expression, 0, 1);
                &&& view_all(n.transitions@) == f.trans
                &&& n.init_state == 0
                &&& n.final_state as int == f.fin
            }),
            n.init_state != n.final_state,
            forall|w: Seq<char>| #[trigger]
                nfa_accepts(n, w) == build_accepts(regular_expression, w),
    {
        proof {
            lemma_build_bounds(regular_expression, 0, 1);
        }
        let mut transform_worker = TransformWorker { name_supply: 0 };
        let start = transform_worker.fresh();
        let n = transform_worker.transform_worker(&regular_expression, start);
        proof {
            let f = build_spec(regular_expression, 0, 1);
            assert forall|w: Seq<char>| #[trigger]
                nfa_accepts(n, w) == build_accepts(regular_expression, w) by {
                assert(set![n.init_state as int] =~= set![0int]);
            }
        }
        n
    }

    /// A copy of the transition list.
    pub fn get_transitions(&self) -> (r: Vec<Transition>)
        ensures
            r@ == self.transitions@,
    {
        let mut r: Vec<Transition> = Vec::new();
        let mut i: usize = 0;
        while i < self.transitions.len()
            invariant
                i <= self.transitions@.len(),
                r@ == self.transitions@.take(i as int),
            decreases self.transitions@.len() - i,
        {
            r.push(self.transitions[i]);
            proof {
                assert(self.transitions@.take(i as int).push(self.transitions@[i as int])
                    =~= self.transitions@.take((i + 1) as int));
            }
            i += 1;
        }
        proof {
            assert(self.transitions@.take(self.transitions@.len() as int)
                =~= self.transitions@);
        }
        r
    }

    /// The initial state.
    pub fn get_initial(&self) -> (r: i32)
        ensures
            r == self.init_state,
    {
        self.init_state
    }

    /// The final state.
    pub fn get_final(&self) -> (r: i32)
        ensures
            r == self.final_state,
    {
        self.final_state
    }
}

} // verus!
