//! The mathematical meaning of an automaton: epsilon-reachability,
//! epsilon-closure, symbol steps, and word acceptance over an abstract
//! transition relation.

use vstd::prelude::*;

verus! {

/// One transition viewed abstractly: source state, target state, and the
/// symbol consumed (`None` is an epsilon transition, which consumes no
/// input; it can never collide with a real alphabet character).
pub struct TransV {
    pub from: int,
    pub to: int,
    pub sym: Option<char>,
}

/// An epsilon transition from `a` to `b`.
pub open spec fn eps_t(a: int, b: int) -> TransV {
    TransV { from: a, to: b, sym: None }
}

/// A transition from `a` to `b` labeled with the character `c`.
pub open spec fn chr_t(a: int, b: int, c: char) -> TransV {
    TransV { from: a, to: b, sym: Some(c) }
}

/// The transition relation holds an epsilon transition from `a` to `b`.
pub open spec fn eps_edge(ts: Seq<TransV>, a: int, b: int) -> bool {
    exists|i: int| 0 <= i < ts.len() && ts[i] == eps_t(a, b)
}

/// The transition relation holds a transition from `a` to `b` labeled `c`.
pub open spec fn chr_edge(ts: Seq<TransV>, a: int, b: int, c: char) -> bool {
    exists|i: int| 0 <= i < ts.len() && ts[i] == chr_t(a, b, c)
}

/// State `b` is reachable from state `a` by exactly `k` epsilon transitions.
pub open spec fn eps_reach_k(ts: Seq<TransV>, a: int, b: int, k: nat) -> bool
    decreases k,
{
    if k == 0 {
        a == b
    } else {
        exists|m: int| eps_edge(ts, a, m) && eps_reach_k(ts, m, b, (k - 1) as nat)
    }
}

/// State `b` is reachable from state `a` by epsilon transitions alone.
pub open spec fn eps_reach(ts: Seq<TransV>, a: int, b: int) -> bool {
    exists|k: nat| eps_reach_k(ts, a, b, k)
}

/// The epsilon-closure of a state set: everything reachable from it by
/// epsilon transitions alone, the set itself included.
pub open spec fn eclose(ts: Seq<TransV>, s: Set<int>) -> Set<int> {
    Set::new(|b: int| exists|a: int| s.contains(a) && eps_reach(ts, a, b))
}

/// One symbol step: the states reachable from the set by exactly one
/// transition labeled `c`.
pub open spec fn chr_step(ts: Seq<TransV>, s: Set<int>, c: char) -> Set<int> {
    Set::new(|b: int| exists|a: int| s.contains(a) && chr_edge(ts, a, b, c))
}

/// The set of live states after reading the whole word `w`, starting from
/// the state set `s`: close under epsilon transitions, then alternate
/// symbol steps and closures.
pub open spec fn after_word(ts: Seq<TransV>, s: Set<int>, w: Seq<char>) -> Set<int>
    decreases w.len(),
{
    if w.len() == 0 {
        eclose(ts, s)
    } else {
        eclose(ts, chr_step(ts, after_word(ts, s, w.drop_last()), w.last()))
    }
}

/// The automaton with transitions `ts`, initial state `init` and final
/// state `fin` accepts the word `w`.
pub open spec fn accepts(ts: Seq<TransV>, init: int, fin: int, w: Seq<char>) -> bool {
    after_word(ts, set![init], w).contains(fin)
}

/// Reachability in `k1` steps followed by reachability in `k2` steps is
/// reachability in `k1 + k2` steps.
pub proof fn lemma_eps_reach_k_trans(ts: Seq<TransV>, a: int, b: int, c: int, k1: nat, k2: nat)
    requires
        eps_reach_k(ts, a, b, k1),
        eps_reach_k(ts, b, c, k2),
    ensures
        eps_reach_k(ts, a, c, k1 + k2),
    decreases k1,
{
    if k1 == 0 {
    } else {
        let m = choose|m: int| eps_edge(ts, a, m) && eps_reach_k(ts, m, b, (k1 - 1) as nat);
        lemma_eps_reach_k_trans(ts, m, b, c, (k1 - 1) as nat, k2);
        assert(eps_reach_k(ts, a, c, (k1 + k2) as nat)) by {
            assert(eps_edge(ts, a, m) && eps_reach_k(ts, m, c, (k1 + k2 - 1) as nat));
        }
    }
}

/// Epsilon-reachability is transitive.
pub proof fn lemma_eps_reach_trans(ts: Seq<TransV>, a: int, b: int, c: int)
    requires
        eps_reach(ts, a, b),
        eps_reach(ts, b, c),
    ensures
        eps_reach(ts, a, c),
{
    let k1 = choose|k1: nat| eps_reach_k(ts, a, b, k1);
    let k2 = choose|k2: nat| eps_reach_k(ts, b, c, k2);
    lemma_eps_reach_k_trans(ts, a, b, c, k1, k2);
}

/// One more epsilon transition extends epsilon-reachability.
pub proof fn lemma_eps_reach_step(ts: Seq<TransV>, a: int, b: int, c: int)
    requires
        eps_reach(ts, a, b),
        eps_edge(ts, b, c),
    ensures
        eps_reach(ts, a, c),
{
    assert(eps_reach_k(ts, b, c, 1)) by {
        assert(eps_edge(ts, b, c) && eps_reach_k(ts, c, c, 0));
    }
    lemma_eps_reach_trans(ts, a, b, c);
}

/// A set is contained in its own epsilon-closure.
pub proof fn lemma_eclose_widens(ts: Seq<TransV>, s: Set<int>)
    ensures
        s.subset_of(eclose(ts, s)),
{
    assert forall|b: int| s.contains(b) implies eclose(ts, s).contains(b) by {
        assert(eps_reach_k(ts, b, b, 0));
        assert(eps_reach(ts, b, b));
    }
}

/// If a set contains `s` and is closed under epsilon transitions, it
/// contains every state that `k` epsilon transitions can reach from `s`.
proof fn lemma_eps_reach_k_in_closed(ts: Seq<TransV>, c: Set<int>, a: int, b: int, k: nat)
    requires
        c.contains(a),
        forall|x: int, y: int| c.contains(x) && eps_edge(ts, x, y) ==> c.contains(y),
        eps_reach_k(ts, a, b, k),
    ensures
        c.contains(b),
    decreases k,
{
    if k == 0 {
    } else {
        let m = choose|m: int| eps_edge(ts, a, m) && eps_reach_k(ts, m, b, (k - 1) as nat);
        lemma_eps_reach_k_in_closed(ts, c, m, b, (k - 1) as nat);
    }
}

proof fn lemma_eps_reach_k_target(ts: Seq<TransV>, a: int, b: int, k: nat)
    requires
        k > 0,
        eps_reach_k(ts, a, b, k),
    ensures
        exists|m: int| eps_edge(ts, m, b),
    decreases k,
{
    let m = choose|m: int| eps_edge(ts, a, m) && eps_reach_k(ts, m, b, (k - 1) as nat);
    if k == 1 {
        assert(m == b);
        assert(eps_edge(ts, a, b));
    } else {
        lemma_eps_reach_k_target(ts, m, b, (k - 1) as nat);
    }
}

/// A state in a closure either started in the set or has an incoming
/// epsilon transition.
pub proof fn lemma_eclose_members(ts: Seq<TransV>, s: Set<int>)
    ensures
        forall|b: int| #[trigger]
            eclose(ts, s).contains(b) ==> s.contains(b) || exists|m: int| eps_edge(ts, m, b),
{
    assert forall|b: int| #[trigger]
        eclose(ts, s).contains(b) && !s.contains(b) implies exists|m: int| eps_edge(ts, m, b) by {
        let a = choose|a: int| s.contains(a) && eps_reach(ts, a, b);
        let k = choose|k: nat| eps_reach_k(ts, a, b, k);
        lemma_eps_reach_k_target(ts, a, b, k);
    }
}

/// The closure of a set is closed under epsilon transitions.
pub proof fn lemma_eclose_extend(ts: Seq<TransV>, s: Set<int>, b: int, c: int)
    requires
        eclose(ts, s).contains(b),
        eps_edge(ts, b, c),
    ensures
        eclose(ts, s).contains(c),
{
    let a = choose|a: int| s.contains(a) && eps_reach(ts, a, b);
    lemma_eps_reach_step(ts, a, b, c);
    assert(s.contains(a) && eps_reach(ts, a, c));
}

/// The epsilon-closure is idempotent: closing a closed set adds nothing.
pub proof fn lemma_eclose_idem(ts: Seq<TransV>, s: Set<int>)
    ensures
        eclose(ts, eclose(ts, s)) == eclose(ts, s),
{
    lemma_eclose_widens(ts, eclose(ts, s));
    assert forall|b: int| eclose(ts, eclose(ts, s)).contains(b) implies eclose(ts, s).contains(
        b,
    ) by {
        let a = choose|a: int| eclose(ts, s).contains(a) && eps_reach(ts, a, b);
        let a0 = choose|a0: int| s.contains(a0) && eps_reach(ts, a0, a);
        lemma_eps_reach_trans(ts, a0, a, b);
    }
    assert(eclose(ts, eclose(ts, s)) =~= eclose(ts, s));
}

/// The live set after a word is closed under epsilon transitions.
pub proof fn lemma_after_word_closed(ts: Seq<TransV>, s: Set<int>, w: Seq<char>)
    ensures
        eclose(ts, after_word(ts, s, w)) == after_word(ts, s, w),
{
    if w.len() == 0 {
        lemma_eclose_idem(ts, s);
    } else {
        lemma_eclose_idem(ts, chr_step(ts, after_word(ts, s, w.drop_last()), w.last()));
    }
}

/// An epsilon transition out of a live state leads to a live state.
pub proof fn lemma_after_word_eps_extend(ts: Seq<TransV>, s: Set<int>, w: Seq<char>, b: int, c: int)
    requires
        after_word(ts, s, w).contains(b),
        eps_edge(ts, b, c),
    ensures
        after_word(ts, s, w).contains(c),
{
    lemma_after_word_closed(ts, s, w);
    let a = choose|a: int| after_word(ts, s, w).contains(a) && eps_reach(ts, a, b);
    lemma_eps_reach_step(ts, a, b, c);
    assert(eclose(ts, after_word(ts, s, w)).contains(c)) by {
        assert(after_word(ts, s, w).contains(a) && eps_reach(ts, a, c));
    }
}

/// Reading a concatenated word is reading its parts in turn.
pub proof fn lemma_after_word_append(ts: Seq<TransV>, s: Set<int>, u: Seq<char>, v: Seq<char>)
    ensures
        after_word(ts, s, u + v) == after_word(ts, after_word(ts, s, u), v),
    decreases v.len(),
{
    if v.len() == 0 {
        assert(u + v =~= u);
        lemma_after_word_closed(ts, s, u);
    } else {
        lemma_after_word_append(ts, s, u, v.drop_last());
        assert((u + v).drop_last() =~= u + v.drop_last());
        assert((u + v).last() == v.last());
    }
}

/// Every transition of `ts1` appears in `ts2` with its states renamed by
/// `f` and its symbol kept.
pub open spec fn maps_edges(ts1: Seq<TransV>, ts2: Seq<TransV>, f: spec_fn(int) -> int) -> bool {
    &&& forall|a: int, b: int| #[trigger]
        eps_edge(ts1, a, b) ==> eps_edge(ts2, f(a), f(b))
    &&& forall|a: int, b: int, c: char| #[trigger]
        chr_edge(ts1, a, b, c) ==> chr_edge(ts2, f(a), f(b), c)
}

proof fn lemma_eps_reach_k_map(
    ts1: Seq<TransV>,
    ts2: Seq<TransV>,
    f: spec_fn(int) -> int,
    a: int,
    b: int,
    k: nat,
)
    requires
        maps_edges(ts1, ts2, f),
        eps_reach_k(ts1, a, b, k),
    ensures
        eps_reach_k(ts2, f(a), f(b), k),
    decreases k,
{
    if k > 0 {
        let m = choose|m: int| eps_edge(ts1, a, m) && eps_reach_k(ts1, m, b, (k - 1) as nat);
        lemma_eps_reach_k_map(ts1, ts2, f, m, b, (k - 1) as nat);
        assert(eps_edge(ts2, f(a), f(m)) && eps_reach_k(ts2, f(m), f(b), (k - 1) as nat));
    }
}

/// Acceptance transfers along a renaming of states: whatever is live after
/// `w` in the embedded automaton is live, renamed, in the embedding one,
/// provided the renamed start states are all live there at the start.
pub proof fn lemma_after_word_map(
    ts1: Seq<TransV>,
    ts2: Seq<TransV>,
    f: spec_fn(int) -> int,
    s1: Set<int>,
    s2: Set<int>,
    w: Seq<char>,
)
    requires
        maps_edges(ts1, ts2, f),
        forall|x: int| s1.contains(x) ==> eclose(ts2, s2).contains(#[trigger] f(x)),
    ensures
        forall|y: int|
            after_word(ts1, s1, w).contains(y) ==> after_word(ts2, s2, w).contains(#[trigger] f(y)),
    decreases w.len(),
{
    if w.len() == 0 {
        assert forall|y: int| after_word(ts1, s1, w).contains(y) implies after_word(
            ts2,
            s2,
            w,
        ).contains(f(y)) by {
            let a = choose|a: int| s1.contains(a) && eps_reach(ts1, a, y);
            let k = choose|k: nat| eps_reach_k(ts1, a, y, k);
            lemma_eps_reach_k_map(ts1, ts2, f, a, y, k);
            let a2 = choose|a2: int| s2.contains(a2) && eps_reach(ts2, a2, f(a));
            lemma_eps_reach_trans(ts2, a2, f(a), f(y));
        }
    } else {
        lemma_after_word_map(ts1, ts2, f, s1, s2, w.drop_last());
        let c = w.last();
        let a1 = after_word(ts1, s1, w.drop_last());
        let a2 = after_word(ts2, s2, w.drop_last());
        assert forall|y: int| after_word(ts1, s1, w).contains(y) implies after_word(
            ts2,
            s2,
            w,
        ).contains(f(y)) by {
            let b = choose|b: int| chr_step(ts1, a1, c).contains(b) && eps_reach(ts1, b, y);
            let a = choose|a: int| a1.contains(a) && chr_edge(ts1, a, b, c);
            let k = choose|k: nat| eps_reach_k(ts1, b, y, k);
            lemma_eps_reach_k_map(ts1, ts2, f, b, y, k);
            assert(chr_step(ts2, a2, c).contains(f(b))) by {
                assert(a2.contains(f(a)) && chr_edge(ts2, f(a), f(b), c));
            }
            assert(chr_step(ts2, a2, c).contains(f(b)) && eps_reach(ts2, f(b), f(y)));
        }
    }
}

/// The epsilon-closure is the least set that contains `s` and is closed
/// under epsilon transitions.
pub proof fn lemma_eclose_least(ts: Seq<TransV>, s: Set<int>, c: Set<int>)
    requires
        s.subset_of(c),
        forall|x: int, y: int| c.contains(x) && eps_edge(ts, x, y) ==> c.contains(y),
    ensures
        eclose(ts, s).subset_of(c),
{
    assert forall|b: int| eclose(ts, s).contains(b) implies c.contains(b) by {
        let a = choose|a: int| s.contains(a) && eps_reach(ts, a, b);
        let k = choose|k: nat| eps_reach_k(ts, a, b, k);
        lemma_eps_reach_k_in_closed(ts, c, a, b, k);
    }
}

} // verus!
