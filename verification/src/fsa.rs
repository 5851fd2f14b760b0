//! The simulator: runs an automaton over a word by tracking the set of
//! currently reachable states, closed under epsilon transitions.

use vstd::prelude::*;

use crate::nfa::view_all;
use crate::nfa::nfa_accepts;
use crate::nfa::NFA;
use crate::semantics::chr_edge;
use crate::semantics::chr_step;
use crate::semantics::chr_t;
use crate::semantics::eclose;
use crate::semantics::eps_edge;
use crate::semantics::eps_t;
use crate::semantics::eps_reach;
use crate::semantics::after_word;
use crate::semantics::lemma_eclose_least;
use crate::semantics::lemma_eps_reach_step;
use crate::semantics::TransV;

verus! {

/// The set of states that a state vector holds.
pub open spec fn set_of(s: Seq<i32>) -> Set<int> {
    Set::new(|b: int| exists|i: int| 0 <= i < s.len() && s[i] as int == b)
}

/// The targets of all transitions in the relation.
pub open spec fn targets(ts: Seq<TransV>) -> Set<int> {
    ts.map_values(|t: TransV| t.to).to_set()
}

/// A state vector holds at most as many distinct states as entries, and
/// exactly as many when it has no duplicates.
proof fn lemma_set_of_cardinality(s: Seq<i32>)
    ensures
        set_of(s).finite(),
        set_of(s).len() <= s.len(),
        s.no_duplicates() ==> set_of(s).len() == s.len(),
{
    broadcast use vstd::seq_lib::seq_to_set_is_finite;

    let m = s.map_values(|x: i32| x as int);
    assert forall|x: int| set_of(s).contains(x) implies m.to_set().contains(x) by {
        let i = choose|i: int| 0 <= i < s.len() && s[i] as int == x;
        assert(m[i] == x);
        assert(m.contains(x));
    }
    assert forall|x: int| m.to_set().contains(x) implies set_of(s).contains(x) by {
        let i = choose|i: int| 0 <= i < m.len() && m[i] == x;
        assert(s[i] as int == x);
    }
    assert(set_of(s) =~= m.to_set());
    m.lemma_cardinality_of_set();
    if s.no_duplicates() {
        s.lemma_no_duplicates_injective(|x: i32| x as int);
        m.unique_seq_to_set();
    }
}

proof fn lemma_targets_cardinality(ts: Seq<TransV>)
    ensures
        targets(ts).finite(),
        targets(ts).len() <= ts.len(),
{
    broadcast use vstd::seq_lib::seq_to_set_is_finite;

    ts.map_values(|t: TransV| t.to).lemma_cardinality_of_set();
}

/// A duplicate-free state vector whose entries all lie in the union of two
/// finite sets has no more entries than the two sets have elements.
proof fn lemma_len_bound(s: Seq<i32>, a: Set<int>, b: Set<int>)
    requires
        s.no_duplicates(),
        a.finite(),
        b.finite(),
        forall|x: int| set_of(s).contains(x) ==> a.contains(x) || b.contains(x),
    ensures
        s.len() <= a.len() + b.len(),
{
    lemma_set_of_cardinality(s);
    assert(set_of(s).subset_of(a.union(b)));
    vstd::set_lib::lemma_len_union(a, b);
    vstd::set_lib::lemma_len_subset(set_of(s), a.union(b));
}

/// Appending one state inserts it into the set a vector holds.
proof fn lemma_set_of_push(s: Seq<i32>, v: i32)
    ensures
        set_of(s.push(v)) == set_of(s).insert(v as int),
{
    assert forall|x: int| set_of(s.push(v)).contains(x) implies set_of(s).insert(
        v as int,
    ).contains(x) by {
        let i = choose|i: int| 0 <= i < s.push(v).len() && s.push(v)[i] as int == x;
        if i < s.len() {
            assert(s[i] as int == x);
        } else {
            assert(x == v as int);
        }
    }
    assert forall|x: int| set_of(s).insert(v as int).contains(x) implies set_of(
        s.push(v),
    ).contains(x) by {
        if x == v as int {
            assert(s.push(v)[s.len() as int] as int == x);
        } else {
            let i = choose|i: int| 0 <= i < s.len() && s[i] as int == x;
            assert(s.push(v)[i] as int == x);
        }
    }
    assert(set_of(s.push(v)) =~= set_of(s).insert(v as int));
}

/// Whether the vector holds the value, by linear scan.
fn vec_contains(v: &Vec<i32>, x: i32) -> (r: bool)
    ensures
        r == v@.contains(x),
{
    let mut i: usize = 0;
    while i < v.len()
        invariant
            i <= v@.len(),
            forall|k: int| 0 <= k < i ==> v@[k] != x,
        decreases v@.len() - i,
    {
        if v[i] == x {
            return true;
        }
        i += 1;
    }
    false
}

/// The simulator: one automaton plus the set of currently live states.
pub struct FSA {
    pub current: Vec<i32>,
    pub nfa: NFA,
}

impl FSA {
    /// The abstract transition relation of the wrapped automaton.
    pub open spec fn ts(self) -> Seq<TransV> {
        view_all(self.nfa.transitions@)
    }

    /// Wrap an automaton in a fresh simulator with no live states.
    pub fn new(nfa: NFA) -> (r: FSA)
        ensures
            r.nfa == nfa,
            r.current@ == Seq::<i32>::empty(),
    {
        FSA { current: Vec::new(), nfa }
    }

    /// Saturate the live set under epsilon transitions: add the target of
    /// every epsilon transition leaving a live state until nothing new
    /// appears.
    #[verifier::loop_isolation(false)]
    fn closure(&mut self)
        requires
            old(self).current@.no_duplicates(),
        ensures
            final(self).nfa == old(self).nfa,
            final(self).current@.no_duplicates(),
            set_of(final(self).current@) == eclose(old(self).ts(), set_of(old(self).current@)),
    {
        let ghost ts = self.ts();
        let ghost s0 = set_of(self.current@);
        let ghost entry_len = self.current@.len() as int;
        proof {
            lemma_set_of_cardinality(self.current@);
            lemma_targets_cardinality(ts);
            crate::semantics::lemma_eclose_widens(ts, s0);
        }
        let mut idx: usize = 0;
        while idx < self.current.len()
            invariant
                self.nfa == old(self).nfa,
                self.current@.no_duplicates(),
                idx <= self.current@.len(),
                self.current@.len() <= entry_len + ts.len(),
                old(self).current@.is_prefix_of(self.current@),
                forall|x: int| set_of(self.current@).contains(x) ==> s0.contains(x) || targets(
                    ts,
                ).contains(x),
                forall|x: int| set_of(self.current@).contains(x) ==> eclose(ts, s0).contains(x),
                forall|k: int, b: int|
                    0 <= k < idx && eps_edge(ts, self.current@[k] as int, b) ==> set_of(
                        self.current@,
                    ).contains(b),
            decreases entry_len + ts.len() - idx,
        {
            let s = self.current[idx];
            let mut j: usize = 0;
            while j < self.nfa.transitions.len()
                invariant
                    self.nfa == old(self).nfa,
                    self.current@.no_duplicates(),
                    idx < self.current@.len(),
                    self.current@[idx as int] == s,
                    j <= ts.len(),
                    self.current@.len() <= entry_len + ts.len(),
                    old(self).current@.is_prefix_of(self.current@),
                    forall|x: int| set_of(self.current@).contains(x) ==> s0.contains(x) || targets(
                        ts,
                    ).contains(x),
                    forall|x: int| set_of(self.current@).contains(x) ==> eclose(ts, s0).contains(x),
                    forall|k: int, b: int|
                        0 <= k < idx && eps_edge(ts, self.current@[k] as int, b) ==> set_of(
                            self.current@,
                        ).contains(b),
                    forall|jj: int|
                        0 <= jj < j && ts[jj].sym is None && ts[jj].from == s as int ==> set_of(
                            self.current@,
                        ).contains(ts[jj].to),
                decreases ts.len() - j,
            {
                let t = self.nfa.transitions[j];
                proof {
                    assert(ts[j as int] == self.nfa.transitions@[j as int]@);
                }
                if t.is_epsilon() && t.from == s {
                    if !vec_contains(&self.current, t.to) {
                        let ghost prev = self.current@;
                        proof {
                            assert(eps_edge(ts, s as int, t.to as int)) by {
                                assert(ts[j as int] == eps_t(s as int, t.to as int));
                            }
                            assert(targets(ts).contains(t.to as int)) by {
                                assert(ts.map_values(|tv: TransV| tv.to)[j as int]
                                    == t.to as int);
                            }
                            assert(set_of(prev).contains(s as int)) by {
                                assert(prev[idx as int] as int == s as int);
                            }
                            // the new state is reachable: extend a path to s by one edge
                            assert(eclose(ts, s0).contains(s as int));
                            let a = choose|a: int| s0.contains(a) && eps_reach(ts, a, s as int);
                            lemma_eps_reach_step(ts, a, s as int, t.to as int);
                            assert(eclose(ts, s0).contains(t.to as int)) by {
                                assert(s0.contains(a) && eps_reach(ts, a, t.to as int));
                            }
                        }
                        self.current.push(t.to);
                        proof {
                            assert(self.current@.no_duplicates()) by {
                                assert(forall|k: int| 0 <= k < prev.len() ==> prev[k] != t.to);
                            }
                            lemma_set_of_push(prev, t.to);
                            lemma_len_bound(self.current@, s0, targets(ts));
                        }
                    }
                }
                j += 1;
            }
            proof {
                assert forall|b: int| eps_edge(ts, s as int, b) implies set_of(
                    self.current@,
                ).contains(b) by {
                    let jj = choose|jj: int| 0 <= jj < ts.len() && ts[jj] == eps_t(s as int, b);
                    assert(ts[jj].sym is None && ts[jj].from == s as int);
                };
            }
            idx += 1;
        }
        proof {
            let c = set_of(self.current@);
            assert(s0.subset_of(c)) by {
                assert forall|x: int| s0.contains(x) implies c.contains(x) by {
                    let i = choose|i: int|
                        0 <= i < old(self).current@.len() && old(self).current@[i] as int == x;
                    assert(self.current@[i] == old(self).current@[i]);
                };
            }
            assert forall|x: int, y: int| c.contains(x) && eps_edge(ts, x, y) implies c.contains(
                y,
            ) by {
                let k = choose|k: int| 0 <= k < self.current@.len() && self.current@[k] as int == x;
            };
            lemma_eclose_least(ts, s0, c);
            assert(c =~= eclose(ts, s0));
        }
    }

    /// Replace the live set with the epsilon-closure of the initial state.
    #[verifier::loop_isolation(false)]
    fn reset(&mut self)
        ensures
            final(self).nfa == old(self).nfa,
            final(self).current@.no_duplicates(),
            set_of(final(self).current@) == eclose(
                old(self).ts(),
                set![old(self).nfa.init_state as int],
            ),
    {
        self.current = Vec::new();
        self.current.push(self.nfa.init_state);
        proof {
            assert(self.current@.no_duplicates());
            lemma_set_of_push(Seq::<i32>::empty(), self.nfa.init_state);
            assert(set_of(Seq::<i32>::empty()) =~= Set::<int>::empty());
            assert(set_of(self.current@) =~= set![self.nfa.init_state as int]);
        }
        self.closure();
    }

    /// Replace the live set with every state reachable from it by exactly
    /// one transition labeled `symbol`, then close under epsilon
    /// transitions. A symbol outside the automaton's alphabet leaves the
    /// live set empty.
    #[verifier::loop_isolation(false)]
    fn step(&mut self, symbol: char)
        requires
            old(self).current@.no_duplicates(),
        ensures
            final(self).nfa == old(self).nfa,
            final(self).current@.no_duplicates(),
            set_of(final(self).current@) == eclose(
                old(self).ts(),
                chr_step(old(self).ts(), set_of(old(self).current@), symbol),
            ),
    {
        let ghost ts = self.ts();
        let ghost s0 = set_of(self.current@);
        let mut next_states: Vec<i32> = Vec::new();
        let mut i: usize = 0;
        while i < self.current.len()
            invariant
                next_states@.no_duplicates(),
                i <= self.current@.len(),
                forall|x: int|
                    set_of(next_states@).contains(x) ==> chr_step(ts, s0, symbol).contains(x),
                forall|k: int, b: int|
                    0 <= k < i && chr_edge(ts, self.current@[k] as int, b, symbol) ==> set_of(
                        next_states@,
                    ).contains(b),
            decreases self.current@.len() - i,
        {
            let s = self.current[i];
            let mut j: usize = 0;
            while j < self.nfa.transitions.len()
                invariant
                    next_states@.no_duplicates(),
                    i < self.current@.len(),
                    self.current@[i as int] == s,
                    j <= ts.len(),
                    forall|x: int|
                        set_of(next_states@).contains(x) ==> chr_step(ts, s0, symbol).contains(x),
                    forall|k: int, b: int|
                        0 <= k < i && chr_edge(ts, self.current@[k] as int, b, symbol) ==> set_of(
                            next_states@,
                        ).contains(b),
                    forall|jj: int|
                        0 <= jj < j && ts[jj].sym == Some(symbol) && ts[jj].from == s as int
                            ==> set_of(next_states@).contains(ts[jj].to),
                decreases ts.len() - j,
            {
                let t = self.nfa.transitions[j];
                proof {
                    assert(ts[j as int] == self.nfa.transitions@[j as int]@);
                }
                if t.trigger(s, symbol) {
                    if !vec_contains(&next_states, t.to) {
                        let ghost prev = next_states@;
                        proof {
                            assert(chr_edge(ts, s as int, t.to as int, symbol)) by {
                                assert(ts[j as int] == chr_t(s as int, t.to as int, symbol));
                            }
                            assert(s0.contains(s as int)) by {
                                assert(self.current@[i as int] as int == s as int);
                            }
                        }
                        next_states.push(t.to);
                        proof {
                            assert(next_states@.no_duplicates()) by {
                                assert(forall|k: int| 0 <= k < prev.len() ==> prev[k] != t.to);
                            }
                            lemma_set_of_push(prev, t.to);
                        }
                    }
                }
                j += 1;
            }
            proof {
                assert forall|b: int| chr_edge(ts, s as int, b, symbol) implies set_of(
                    next_states@,
                ).contains(b) by {
                    let jj = choose|jj: int|
                        0 <= jj < ts.len() && ts[jj] == chr_t(s as int, b, symbol);
                    assert(ts[jj].sym == Some(symbol) && ts[jj].from == s as int);
                };
            }
            i += 1;
        }
        proof {
            assert forall|b: int| chr_step(ts, s0, symbol).contains(b) implies set_of(
                next_states@,
            ).contains(b) by {
                let a = choose|a: int| s0.contains(a) && chr_edge(ts, a, b, symbol);
                let k = choose|k: int|
                    0 <= k < self.current@.len() && self.current@[k] as int == a;
            };
            assert(set_of(next_states@) =~= chr_step(ts, s0, symbol));
        }
        self.current = next_states;
        self.closure();
    }

    /// Whether the automaton's final state is currently live.
    fn is_final(&self) -> (r: bool)
        ensures
            r == set_of(self.current@).contains(self.nfa.final_state as int),
    {
        let r = vec_contains(&self.current, self.nfa.final_state);
        proof {
            if self.current@.contains(self.nfa.final_state) {
                let i = choose|i: int|
                    0 <= i < self.current@.len() && self.current@[i] == self.nfa.final_state;
                assert(self.current@[i] as int == self.nfa.final_state as int);
            }
            if set_of(self.current@).contains(self.nfa.final_state as int) {
                let i = choose|i: int|
                    0 <= i < self.current@.len() && self.current@[i] as int
                        == self.nfa.final_state as int;
                assert(self.current@[i] == self.nfa.final_state);
            }
        }
        r
    }

    /// Run the automaton over the whole word and decide membership: the
    /// word is accepted exactly when the automaton's semantics accept it.
    /// Each run resets the simulator, so one simulator can serve any number
    /// of words in turn.
    #[verifier::loop_isolation(false)]
    pub fn run(&mut self, word: String) -> (r: bool)
        ensures
            final(self).nfa == old(self).nfa,
            r == nfa_accepts(old(self).nfa, word@),
    {
        let ghost ts = self.ts();
        let ghost init = self.nfa.init_state as int;
        self.reset();
        let word_str = word.as_str();
        let n = word_str.unicode_len();
        let mut i: usize = 0;
        proof {
            assert(word@.take(0) =~= Seq::<char>::empty());
        }
        while i < n
            invariant
                i <= n,
                self.nfa == old(self).nfa,
                self.current@.no_duplicates(),
                set_of(self.current@) == after_word(ts, set![init], word@.take(i as int)),
            decreases n - i,
        {
            let c = word_str.get_char(i);
            self.step(c);
            proof {
                let w1 = word@.take((i + 1) as int);
                assert(w1.drop_last() =~= word@.take(i as int));
                assert(w1.last() == c);
            }
            i += 1;
        }
        proof {
            assert(word@.take(n as int) =~= word@);
        }
        self.is_final()
    }
}

} // verus!
