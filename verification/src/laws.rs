//! Properties of the built automata, proved against the acceptance
//! semantics: the empty language accepts nothing; the empty-string language
//! accepts exactly the empty word; a starred language accepts the empty
//! word; an alternation accepts exactly the union of its branch languages;
//! and a concatenation accepts exactly the words that split into a prefix
//! the left language accepts and a suffix the right language accepts.

use vstd::prelude::*;

use crate::nfa::build_accepts;
use crate::nfa::build_spec;
use crate::nfa::lemma_build_bounds;
use crate::nfa::lemma_build_relabel;
use crate::regular_expressions::REType;
use crate::semantics::after_word;
use crate::semantics::chr_edge;
use crate::semantics::lemma_after_word_append;
use crate::semantics::lemma_after_word_closed;
use crate::semantics::lemma_after_word_map;
use crate::semantics::maps_edges;
use crate::semantics::chr_step;
use crate::semantics::chr_t;
use crate::semantics::eclose;
use crate::semantics::eps_edge;
use crate::semantics::eps_reach;
use crate::semantics::eps_reach_k;
use crate::semantics::eps_t;
use crate::semantics::lemma_eclose_least;
use crate::semantics::lemma_eclose_widens;
use crate::semantics::TransV;

verus! {

/// A relation with no epsilon transitions closes every set onto itself.
proof fn lemma_eclose_no_edges(ts: Seq<TransV>, s: Set<int>)
    requires
        forall|a: int, b: int| !eps_edge(ts, a, b),
    ensures
        eclose(ts, s) == s,
{
    lemma_eclose_widens(ts, s);
    lemma_eclose_least(ts, s, s);
    assert(eclose(ts, s) =~= s);
}

/// The closure of the empty set is empty.
proof fn lemma_eclose_empty(ts: Seq<TransV>)
    ensures
        eclose(ts, Set::<int>::empty()) == Set::<int>::empty(),
{
    assert(eclose(ts, Set::<int>::empty()) =~= Set::<int>::empty());
}

/// Reading any word with the empty transition relation leaves at most the
/// starting states live, and none on a nonempty word.
proof fn lemma_after_word_no_transitions(w: Seq<char>)
    ensures
        after_word(Seq::<TransV>::empty(), set![0int], w) == if w.len() == 0 {
            set![0int]
        } else {
            Set::<int>::empty()
        },
    decreases w.len(),
{
    let ts = Seq::<TransV>::empty();
    if w.len() == 0 {
        lemma_eclose_no_edges(ts, set![0int]);
    } else {
        lemma_after_word_no_transitions(w.drop_last());
        assert(chr_step(ts, after_word(ts, set![0int], w.drop_last()), w.last())
            =~= Set::<int>::empty());
        lemma_eclose_empty(ts);
    }
}

/// The automaton built from `Phi` accepts no word at all, the empty word
/// included.
pub proof fn lemma_phi_rejects_all(w: Seq<char>)
    ensures
        !build_accepts(REType::Phi {}, w),
{
    lemma_after_word_no_transitions(w);
}

/// The automaton built from `Eps` accepts the empty word and nothing else.
pub proof fn lemma_eps_accepts_exactly_empty(w: Seq<char>)
    ensures
        build_accepts(REType::Eps {}, w) <==> w.len() == 0,
{
    let f = build_spec(REType::Eps {}, 0, 1);
    let ts = f.trans;
    if w.len() == 0 {
        assert(eps_edge(ts, 0, 1)) by {
            assert(ts[0] == eps_t(0, 1));
        }
        assert(eps_reach_k(ts, 0, 1, 1)) by {
            assert(eps_edge(ts, 0, 1) && eps_reach_k(ts, 1, 1, 0));
        }
        assert(after_word(ts, set![0int], w).contains(1)) by {
            assert(set![0int].contains(0) && eps_reach(ts, 0, 1));
        }
    } else {
        let prefix_states = after_word(ts, set![0int], w.drop_last());
        assert(chr_step(ts, prefix_states, w.last()) =~= Set::<int>::empty()) by {
            assert forall|b: int| !chr_step(ts, prefix_states, w.last()).contains(b) by {
                assert(forall|a: int| !(#[trigger] chr_edge_here(ts, a, b, w.last())));
            };
        }
        lemma_eclose_empty(ts);
    }
}

/// Helper naming the character-edge relation, so quantified negations have
/// a stable trigger.
spec fn chr_edge_here(ts: Seq<TransV>, a: int, b: int, c: char) -> bool {
    crate::semantics::chr_edge(ts, a, b, c)
}

/// Every edge of the fragment built at one numbering appears, renamed, in
/// the fragment built at another numbering.
proof fn lemma_build_maps_edges(
    t: REType,
    a2: int,
    m2: int,
    f: spec_fn(int) -> int,
    ts2: Seq<TransV>,
    offset: int,
)
    requires
        f(0) == a2,
        forall|x: int| x >= 1 ==> #[trigger] f(x) == x - 1 + m2,
        0 <= offset,
        offset + build_spec(t, a2, m2).trans.len() <= ts2.len(),
        forall|i: int|
            0 <= i < build_spec(t, a2, m2).trans.len() ==> ts2[offset + i] == build_spec(
                t,
                a2,
                m2,
            ).trans[i],
    ensures
        maps_edges(build_spec(t, 0, 1).trans, ts2, f),
{
    lemma_build_relabel(t, 0, 1, a2, m2, f);
    let t1 = build_spec(t, 0, 1).trans;
    let t2 = build_spec(t, a2, m2).trans;
    assert forall|a: int, b: int| #[trigger]
        eps_edge(t1, a, b) implies eps_edge(ts2, f(a), f(b)) by {
        let i = choose|i: int| 0 <= i < t1.len() && t1[i] == eps_t(a, b);
        assert(t2[i] == crate::nfa::relabel_t(f, t1[i]));
        assert(ts2[offset + i] == eps_t(f(a), f(b)));
    }
    assert forall|a: int, b: int, c: char| #[trigger]
        chr_edge(t1, a, b, c) implies chr_edge(ts2, f(a), f(b), c) by {
        let i = choose|i: int| 0 <= i < t1.len() && t1[i] == chr_t(a, b, c);
        assert(t2[i] == crate::nfa::relabel_t(f, t1[i]));
        assert(ts2[offset + i] == chr_t(f(a), f(b), c));
    }
}

/// Concatenation is sound: a word made of a prefix the left language
/// accepts and a suffix the right language accepts is accepted by the
/// automaton built for the concatenation.
pub proof fn lemma_conc_sound(left: Box<REType>, right: Box<REType>, u: Seq<char>, v: Seq<char>)
    requires
        build_accepts(*left, u),
        build_accepts(*right, v),
    ensures
        build_accepts(REType::Conc { left, right }, u + v),
{
    let fc = build_spec(REType::Conc { left, right }, 0, 1);
    let fl = build_spec(*left, 0, 1);
    let fr = build_spec(*right, fl.fin, fl.next);
    let frs = build_spec(*right, 0, 1);
    // the left fragment sits unrenamed at the front of the combined relation
    let id = |x: int| x;
    lemma_build_maps_edges(*left, 0, 1, id, fc.trans, 0);
    lemma_eclose_widens(fc.trans, set![0int]);
    lemma_after_word_map(fl.trans, fc.trans, id, set![0int], set![0int], u);
    let a_u = after_word(fc.trans, set![0int], u);
    assert(a_u.contains(fl.fin)) by {
        assert(after_word(fl.trans, set![0int], u).contains(fl.fin));
        assert(a_u.contains(id(fl.fin)));
    }
    // the right fragment sits renamed behind it: its initial state is the
    // left fragment's final state, which is live after the prefix
    let sigma = |x: int| if x == 0 { fl.fin } else { x - 1 + fl.next };
    lemma_build_maps_edges(*right, fl.fin, fl.next, sigma, fc.trans, fl.trans.len() as int);
    lemma_after_word_closed(fc.trans, set![0int], u);
    lemma_build_relabel(*right, 0, 1, fl.fin, fl.next, sigma);
    lemma_after_word_map(frs.trans, fc.trans, sigma, set![0int], a_u, v);
    assert(after_word(fc.trans, a_u, v).contains(fr.fin)) by {
        assert(after_word(frs.trans, set![0int], v).contains(frs.fin));
        assert(sigma(frs.fin) == fr.fin);
    }
    lemma_after_word_append(fc.trans, set![0int], u, v);
}

/// Alternation is sound on the left: a word the left language accepts is
/// accepted by the automaton built for the alternation.
pub proof fn lemma_alt_sound_left(left: Box<REType>, right: Box<REType>, w: Seq<char>)
    requires
        build_accepts(*left, w),
    ensures
        build_accepts(REType::Alt { left, right }, w),
{
    let fa = build_spec(REType::Alt { left, right }, 0, 1);
    let fl = build_spec(*left, 1, 2);
    let fls = build_spec(*left, 0, 1);
    let fr = build_spec(*right, fl.next, fl.next + 1);
    let sigma = |x: int| if x == 0 { 1int } else { x + 1 };
    lemma_build_maps_edges(*left, 1, 2, sigma, fa.trans, 0);
    lemma_build_relabel(*left, 0, 1, 1, 2, sigma);
    // the entry transition makes the left fragment's initial state live
    let entry_at = fl.trans.len() + fr.trans.len();
    assert(fa.trans[entry_at as int] == eps_t(0, 1));
    assert(eps_edge(fa.trans, 0, 1));
    assert(eclose(fa.trans, set![0int]).contains(1)) by {
        assert(eps_reach_k(fa.trans, 0, 1, 1)) by {
            assert(eps_edge(fa.trans, 0, 1) && eps_reach_k(fa.trans, 1, 1, 0));
        }
        assert(set![0int].contains(0) && eps_reach(fa.trans, 0, 1));
    }
    lemma_after_word_map(fls.trans, fa.trans, sigma, set![0int], set![0int], w);
    assert(after_word(fa.trans, set![0int], w).contains(fl.fin)) by {
        assert(after_word(fls.trans, set![0int], w).contains(fls.fin));
        assert(sigma(fls.fin) == fl.fin);
    }
    // the exit transition carries it on to the final state
    assert(fa.trans[(entry_at + 2) as int] == eps_t(fl.fin, fa.fin));
    assert(eps_edge(fa.trans, fl.fin, fa.fin));
    crate::semantics::lemma_after_word_eps_extend(fa.trans, set![0int], w, fl.fin, fa.fin);
}

/// Alternation is sound on the right: a word the right language accepts is
/// accepted by the automaton built for the alternation.
pub proof fn lemma_alt_sound_right(left: Box<REType>, right: Box<REType>, w: Seq<char>)
    requires
        build_accepts(*right, w),
    ensures
        build_accepts(REType::Alt { left, right }, w),
{
    let fa = build_spec(REType::Alt { left, right }, 0, 1);
    let fl = build_spec(*left, 1, 2);
    let fr = build_spec(*right, fl.next, fl.next + 1);
    let frs = build_spec(*right, 0, 1);
    let sigma = |x: int| if x == 0 { fl.next } else { x - 1 + fl.next + 1 };
    lemma_build_maps_edges(*right, fl.next, fl.next + 1, sigma, fa.trans, fl.trans.len() as int);
    lemma_build_relabel(*right, 0, 1, fl.next, fl.next + 1, sigma);
    let entry_at = fl.trans.len() + fr.trans.len() + 1;
    assert(fa.trans[entry_at as int] == eps_t(0, fl.next));
    assert(eps_edge(fa.trans, 0, fl.next));
    assert(eclose(fa.trans, set![0int]).contains(fl.next)) by {
        assert(eps_reach_k(fa.trans, 0, fl.next, 1)) by {
            assert(eps_edge(fa.trans, 0, fl.next) && eps_reach_k(fa.trans, fl.next, fl.next, 0));
        }
        assert(set![0int].contains(0) && eps_reach(fa.trans, 0, fl.next));
    }
    lemma_after_word_map(frs.trans, fa.trans, sigma, set![0int], set![0int], w);
    assert(after_word(fa.trans, set![0int], w).contains(fr.fin)) by {
        assert(after_word(frs.trans, set![0int], w).contains(frs.fin));
        assert(sigma(frs.fin) == fr.fin);
    }
    assert(fa.trans[(entry_at + 2) as int] == eps_t(fr.fin, fa.fin));
    assert(eps_edge(fa.trans, fr.fin, fa.fin));
    crate::semantics::lemma_after_word_eps_extend(fa.trans, set![0int], w, fr.fin, fa.fin);
}

/// The transition relation of the automaton built for an alternation.
spec fn alt_trans(left: REType, right: REType) -> Seq<TransV> {
    let fl = build_spec(left, 1, 2);
    let fr = build_spec(right, fl.next, fl.next + 1);
    fl.trans + fr.trans + seq![
        eps_t(0, 1),
        eps_t(0, fl.next),
        eps_t(fl.fin, fr.next),
        eps_t(fr.fin, fr.next),
    ]
}

/// Where the right fragment of an alternation starts.
spec fn alt_rstart(left: REType) -> int {
    build_spec(left, 1, 2).next
}

/// The final state of the automaton built for an alternation.
spec fn alt_fin(left: REType, right: REType) -> int {
    build_spec(right, alt_rstart(left), alt_rstart(left) + 1).next
}

/// The map that embeds the standalone left automaton's states into the
/// alternation automaton.
spec fn alt_sigma_l() -> spec_fn(int) -> int {
    |x: int| if x == 0 { 1int } else { x + 1 }
}

/// The map that embeds the standalone right automaton's states into the
/// alternation automaton.
spec fn alt_sigma_r(left: REType) -> spec_fn(int) -> int {
    |x: int| if x == 0 { alt_rstart(left) } else { x - 1 + alt_rstart(left) + 1 }
}

/// A set of left-fragment states and a set of right-fragment states viewed
/// inside the alternation automaton, with or without the shared final
/// state.
spec fn alt_embed(
    left: REType,
    right: REType,
    sl: Set<int>,
    sr: Set<int>,
    with_fin: bool,
) -> Set<int> {
    let rstart = alt_rstart(left);
    let fin = alt_fin(left, right);
    Set::new(
        |y: int|
            {
                ||| (1 <= y < rstart && sl.contains(y - 1))
                ||| (rstart <= y < fin && sr.contains(y - rstart))
                ||| (y == fin && with_fin)
            },
    )
}

/// The live states of the alternation automaton after `w`, written in
/// terms of the two standalone automata: the initial state while no symbol
/// was read, the embedded live states of both fragments, and the shared
/// final state as soon as either fragment's final state is live.
spec fn alt_live(left: REType, right: REType, w: Seq<char>) -> Set<int> {
    let fls = build_spec(left, 0, 1);
    let frs = build_spec(right, 0, 1);
    let al = after_word(fls.trans, set![0int], w);
    let ar = after_word(frs.trans, set![0int], w);
    let core = alt_embed(
        left,
        right,
        al,
        ar,
        al.contains(fls.fin) || ar.contains(frs.fin),
    );
    if w.len() == 0 {
        core.insert(0)
    } else {
        core
    }
}

/// The numeric layout of an alternation automaton, derived from the
/// relabeling of its two fragments.
proof fn lemma_alt_layout(left: REType, right: REType)
    ensures
        ({
            let fls = build_spec(left, 0, 1);
            let frs = build_spec(right, 0, 1);
            let fl = build_spec(left, 1, 2);
            let rstart = alt_rstart(left);
            let fr = build_spec(right, rstart, rstart + 1);
            let fin = alt_fin(left, right);
            &&& fl.trans == fls.trans.map_values(
                |tv: TransV| crate::nfa::relabel_t(alt_sigma_l(), tv),
            )
            &&& fr.trans == frs.trans.map_values(
                |tv: TransV| crate::nfa::relabel_t(alt_sigma_r(left), tv),
            )
            &&& rstart == fls.next + 1
            &&& fin == frs.next + rstart
            &&& fl.fin == fls.fin + 1
            &&& fr.fin == frs.fin + rstart
            &&& 2 <= fls.next
            &&& 2 <= frs.next
            &&& 1 <= fls.fin < fls.next
            &&& 1 <= frs.fin < frs.next
            &&& 3 <= rstart
            &&& rstart + 2 <= fin
        }),
{
    lemma_build_relabel(left, 0, 1, 1, 2, alt_sigma_l());
    lemma_build_relabel(right, 0, 1, alt_rstart(left), alt_rstart(left) + 1, alt_sigma_r(left));
    lemma_build_bounds(left, 0, 1);
    lemma_build_bounds(right, 0, 1);
}

/// Every epsilon transition of the alternation automaton is an embedded
/// transition of one fragment or one of the four glue transitions.
proof fn lemma_alt_eps_edge(left: REType, right: REType, a: int, b: int)
    requires
        eps_edge(alt_trans(left, right), a, b),
    ensures
        ({
            let fls = build_spec(left, 0, 1);
            let frs = build_spec(right, 0, 1);
            let rstart = alt_rstart(left);
            let fin = alt_fin(left, right);
            ||| (eps_edge(fls.trans, a - 1, b - 1) && 1 <= a < rstart && 1 <= b < rstart)
            ||| (eps_edge(frs.trans, a - rstart, b - rstart) && rstart <= a < fin && rstart <= b
                < fin)
            ||| (a == 0 && b == 1)
            ||| (a == 0 && b == rstart)
            ||| (a == fls.fin + 1 && b == fin)
            ||| (a == frs.fin + rstart && b == fin)
        }),
{
    lemma_alt_layout(left, right);
    lemma_build_bounds(left, 0, 1);
    lemma_build_bounds(right, 0, 1);
    let ts = alt_trans(left, right);
    let fls = build_spec(left, 0, 1);
    let frs = build_spec(right, 0, 1);
    let fl = build_spec(left, 1, 2);
    let rstart = alt_rstart(left);
    let fr = build_spec(right, rstart, rstart + 1);
    let i = choose|i: int| 0 <= i < ts.len() && ts[i] == eps_t(a, b);
    if i < fl.trans.len() {
        assert(ts[i] == fl.trans[i]);
        let sig = alt_sigma_l();
        assert(fl.trans[i] == crate::nfa::relabel_t(sig, fls.trans[i]));
        let a0 = fls.trans[i].from;
        let b0 = fls.trans[i].to;
        assert(a == sig(a0) && b == sig(b0));
        assert(a == a0 + 1 && b == b0 + 1);
        assert(0 <= a0 < fls.next && 1 <= b0 < fls.next);
        assert(eps_edge(fls.trans, a - 1, b - 1)) by {
            assert(fls.trans[i] == eps_t(a - 1, b - 1));
        }
    } else if i < fl.trans.len() + fr.trans.len() {
        let i0 = i - fl.trans.len();
        assert(ts[i] == fr.trans[i0]);
        let sig = alt_sigma_r(left);
        assert(fr.trans[i0] == crate::nfa::relabel_t(sig, frs.trans[i0]));
        let a0 = frs.trans[i0].from;
        let b0 = frs.trans[i0].to;
        assert(a == sig(a0) && b == sig(b0));
        assert(a == a0 + rstart && b == b0 + rstart);
        assert(0 <= a0 < frs.next && 1 <= b0 < frs.next);
        assert(eps_edge(frs.trans, a - rstart, b - rstart)) by {
            assert(frs.trans[i0] == eps_t(a - rstart, b - rstart));
        }
    } else {
        assert(i - (fl.trans.len() + fr.trans.len()) < 4);
    }
}

/// Every labeled transition of the alternation automaton is an embedded
/// labeled transition of one fragment.
proof fn lemma_alt_chr_edge(left: REType, right: REType, a: int, b: int, c: char)
    requires
        chr_edge(alt_trans(left, right), a, b, c),
    ensures
        ({
            let fls = build_spec(left, 0, 1);
            let frs = build_spec(right, 0, 1);
            let rstart = alt_rstart(left);
            let fin = alt_fin(left, right);
            ||| (chr_edge(fls.trans, a - 1, b - 1, c) && 1 <= a < rstart && 1 <= b < rstart)
            ||| (chr_edge(frs.trans, a - rstart, b - rstart, c) && rstart <= a < fin && rstart <= b
                < fin)
        }),
{
    lemma_alt_layout(left, right);
    lemma_build_bounds(left, 0, 1);
    lemma_build_bounds(right, 0, 1);
    let ts = alt_trans(left, right);
    let fls = build_spec(left, 0, 1);
    let frs = build_spec(right, 0, 1);
    let fl = build_spec(left, 1, 2);
    let rstart = alt_rstart(left);
    let fr = build_spec(right, rstart, rstart + 1);
    let i = choose|i: int| 0 <= i < ts.len() && ts[i] == chr_t(a, b, c);
    if i < fl.trans.len() {
        assert(ts[i] == fl.trans[i]);
        let sig = alt_sigma_l();
        assert(fl.trans[i] == crate::nfa::relabel_t(sig, fls.trans[i]));
        let a0 = fls.trans[i].from;
        let b0 = fls.trans[i].to;
        assert(a == sig(a0) && b == sig(b0));
        assert(a == a0 + 1 && b == b0 + 1);
        assert(0 <= a0 < fls.next && 1 <= b0 < fls.next);
        assert(chr_edge(fls.trans, a - 1, b - 1, c)) by {
            assert(fls.trans[i] == chr_t(a - 1, b - 1, c));
        }
    } else if i < fl.trans.len() + fr.trans.len() {
        let i0 = i - fl.trans.len();
        assert(ts[i] == fr.trans[i0]);
        let sig = alt_sigma_r(left);
        assert(fr.trans[i0] == crate::nfa::relabel_t(sig, frs.trans[i0]));
        let a0 = frs.trans[i0].from;
        let b0 = frs.trans[i0].to;
        assert(a == sig(a0) && b == sig(b0));
        assert(a == a0 + rstart && b == b0 + rstart);
        assert(0 <= a0 < frs.next && 1 <= b0 < frs.next);
        assert(chr_edge(frs.trans, a - rstart, b - rstart, c)) by {
            assert(frs.trans[i0] == chr_t(a - rstart, b - rstart, c));
        }
    } else {
        assert(i - (fl.trans.len() + fr.trans.len()) < 4);
    }
}

/// Every state live after a word in a built automaton lies in the state
/// range of its construction.
proof fn lemma_after_word_range(t: REType, w: Seq<char>)
    ensures
        forall|y: int| #[trigger]
            after_word(build_spec(t, 0, 1).trans, set![0int], w).contains(y) ==> 0 <= y
                < build_spec(t, 0, 1).next,
{
    let f = build_spec(t, 0, 1);
    lemma_build_bounds(t, 0, 1);
    crate::semantics::lemma_eclose_members(f.trans, set![0int]);
    if w.len() == 0 {
        assert forall|y: int| #[trigger]
            after_word(f.trans, set![0int], w).contains(y) implies 0 <= y < f.next by {
            if !set![0int].contains(y) {
                let m = choose|m: int| eps_edge(f.trans, m, y);
                let i = choose|i: int| 0 <= i < f.trans.len() && f.trans[i] == eps_t(m, y);
            }
        }
    } else {
        let mid = chr_step(f.trans, after_word(f.trans, set![0int], w.drop_last()), w.last());
        crate::semantics::lemma_eclose_members(f.trans, mid);
        assert forall|y: int| #[trigger]
            after_word(f.trans, set![0int], w).contains(y) implies 0 <= y < f.next by {
            if mid.contains(y) {
                let a = choose|a: int|
                    after_word(f.trans, set![0int], w.drop_last()).contains(a) && chr_edge(
                        f.trans,
                        a,
                        y,
                        w.last(),
                    );
                let i = choose|i: int|
                    0 <= i < f.trans.len() && f.trans[i] == chr_t(a, y, w.last());
            } else {
                let m = choose|m: int| eps_edge(f.trans, m, y);
                let i = choose|i: int| 0 <= i < f.trans.len() && f.trans[i] == eps_t(m, y);
            }
        }
    }
}

/// Closing an embedded pair of fragment state sets under the alternation
/// automaton's epsilon transitions closes each fragment under its own, and
/// adds the shared final state exactly when a fragment's final state is
/// reached.
proof fn lemma_alt_eclose_decomp(left: REType, right: REType, sl: Set<int>, sr: Set<int>)
    requires
        forall|x: int| sl.contains(x) ==> 0 <= x < build_spec(left, 0, 1).next,
        forall|x: int| sr.contains(x) ==> 0 <= x < build_spec(right, 0, 1).next,
    ensures
        ({
            let fls = build_spec(left, 0, 1);
            let frs = build_spec(right, 0, 1);
            let cl = eclose(fls.trans, sl);
            let cr = eclose(frs.trans, sr);
            eclose(alt_trans(left, right), alt_embed(left, right, sl, sr, false)) == alt_embed(
                left,
                right,
                cl,
                cr,
                cl.contains(fls.fin) || cr.contains(frs.fin),
            )
        }),
{
    lemma_alt_layout(left, right);
    lemma_build_bounds(left, 0, 1);
    lemma_build_bounds(right, 0, 1);
    let ts = alt_trans(left, right);
    let fls = build_spec(left, 0, 1);
    let frs = build_spec(right, 0, 1);
    let fl = build_spec(left, 1, 2);
    let rstart = alt_rstart(left);
    let fr = build_spec(right, rstart, rstart + 1);
    let fin = alt_fin(left, right);
    let cl = eclose(fls.trans, sl);
    let cr = eclose(frs.trans, sr);
    let lhs_in = alt_embed(left, right, sl, sr, false);
    let rhs = alt_embed(left, right, cl, cr, cl.contains(fls.fin) || cr.contains(frs.fin));
    let sigl = alt_sigma_l();
    let sigr = alt_sigma_r(left);
    // closed fragment sets stay inside their fragment's state range
    crate::semantics::lemma_eclose_members(fls.trans, sl);
    crate::semantics::lemma_eclose_members(frs.trans, sr);
    assert forall|x: int| cl.contains(x) implies 0 <= x < fls.next by {
        if !sl.contains(x) {
            let m = choose|m: int| eps_edge(fls.trans, m, x);
            let i = choose|i: int| 0 <= i < fls.trans.len() && fls.trans[i] == eps_t(m, x);
        }
    }
    assert forall|x: int| cr.contains(x) implies 0 <= x < frs.next by {
        if !sr.contains(x) {
            let m = choose|m: int| eps_edge(frs.trans, m, x);
            let i = choose|i: int| 0 <= i < frs.trans.len() && frs.trans[i] == eps_t(m, x);
        }
    }
    lemma_build_maps_edges(left, 1, 2, sigl, ts, 0);
    lemma_build_maps_edges(right, rstart, rstart + 1, sigr, ts, fl.trans.len() as int);
    // the renamed closures are reachable inside the combined automaton
    assert forall|x: int| sl.contains(x) implies eclose(ts, lhs_in).contains(#[trigger] sigl(x)) by {
        assert(lhs_in.contains(x + 1));
        lemma_eclose_widens(ts, lhs_in);
        assert(sigl(x) == x + 1);
    }
    assert forall|x: int| sr.contains(x) implies eclose(ts, lhs_in).contains(#[trigger] sigr(x)) by {
        assert(lhs_in.contains(x + rstart));
        lemma_eclose_widens(ts, lhs_in);
        assert(sigr(x) == x + rstart);
    }
    lemma_after_word_map(fls.trans, ts, sigl, sl, lhs_in, Seq::<char>::empty());
    lemma_after_word_map(frs.trans, ts, sigr, sr, lhs_in, Seq::<char>::empty());
    assert forall|z: int| rhs.contains(z) implies eclose(ts, lhs_in).contains(z) by {
        if 1 <= z < rstart && cl.contains(z - 1) {
            assert(eclose(ts, lhs_in).contains(sigl(z - 1)));
            assert(sigl(z - 1) == z);
        } else if rstart <= z < fin && cr.contains(z - rstart) {
            assert(eclose(ts, lhs_in).contains(sigr(z - rstart)));
            assert(sigr(z - rstart) == z);
        } else {
            if cl.contains(fls.fin) {
                assert(eclose(ts, lhs_in).contains(sigl(fls.fin)));
                assert(sigl(fls.fin) == fls.fin + 1);
                assert(eps_edge(ts, fls.fin + 1, fin)) by {
                    assert(ts[(fl.trans.len() + fr.trans.len() + 2) as int] == eps_t(
                        fl.fin,
                        fr.next,
                    ));
                }
                crate::semantics::lemma_eclose_extend(ts, lhs_in, fls.fin + 1, fin);
            } else {
                assert(cr.contains(frs.fin));
                assert(eclose(ts, lhs_in).contains(sigr(frs.fin)));
                assert(sigr(frs.fin) == frs.fin + rstart);
                assert(eps_edge(ts, frs.fin + rstart, fin)) by {
                    assert(ts[(fl.trans.len() + fr.trans.len() + 3) as int] == eps_t(
                        fr.fin,
                        fr.next,
                    ));
                }
                crate::semantics::lemma_eclose_extend(ts, lhs_in, frs.fin + rstart, fin);
            }
        }
    }
    // conversely, the embedded closures are closed under the combined edges
    assert(lhs_in.subset_of(rhs)) by {
        lemma_eclose_widens(fls.trans, sl);
        lemma_eclose_widens(frs.trans, sr);
    }
    assert forall|x: int, y: int| rhs.contains(x) && eps_edge(ts, x, y) implies rhs.contains(
        y,
    ) by {
        lemma_alt_eps_edge(left, right, x, y);
        if eps_edge(fls.trans, x - 1, y - 1) && 1 <= x < rstart && 1 <= y < rstart {
            assert(cl.contains(x - 1));
            crate::semantics::lemma_eclose_extend(fls.trans, sl, x - 1, y - 1);
        } else if eps_edge(frs.trans, x - rstart, y - rstart) && rstart <= x < fin && rstart <= y
            < fin {
            assert(cr.contains(x - rstart));
            crate::semantics::lemma_eclose_extend(frs.trans, sr, x - rstart, y - rstart);
        } else if x == 0 {
            assert(!rhs.contains(0));
        } else if x == fls.fin + 1 && y == fin {
            assert(cl.contains(fls.fin));
        } else {
            assert(x == frs.fin + rstart && y == fin);
            assert(cr.contains(frs.fin));
        }
    }
    lemma_eclose_least(ts, lhs_in, rhs);
    assert(eclose(ts, lhs_in) =~= rhs);
}

/// One labeled step of the alternation automaton is one labeled step of
/// each fragment; the initial and final glue states take no labeled step.
proof fn lemma_alt_chr_decomp(
    left: REType,
    right: REType,
    sl: Set<int>,
    sr: Set<int>,
    with_fin: bool,
    c: char,
)
    requires
        forall|x: int| sl.contains(x) ==> 0 <= x < build_spec(left, 0, 1).next,
        forall|x: int| sr.contains(x) ==> 0 <= x < build_spec(right, 0, 1).next,
    ensures
        chr_step(alt_trans(left, right), alt_embed(left, right, sl, sr, with_fin), c)
            == alt_embed(
            left,
            right,
            chr_step(build_spec(left, 0, 1).trans, sl, c),
            chr_step(build_spec(right, 0, 1).trans, sr, c),
            false,
        ),
{
    lemma_alt_layout(left, right);
    lemma_build_bounds(left, 0, 1);
    lemma_build_bounds(right, 0, 1);
    let ts = alt_trans(left, right);
    let fls = build_spec(left, 0, 1);
    let frs = build_spec(right, 0, 1);
    let fl = build_spec(left, 1, 2);
    let rstart = alt_rstart(left);
    let fin = alt_fin(left, right);
    let x_in = alt_embed(left, right, sl, sr, with_fin);
    let xl = chr_step(fls.trans, sl, c);
    let xr = chr_step(frs.trans, sr, c);
    let rhs = alt_embed(left, right, xl, xr, false);
    let sigl = alt_sigma_l();
    let sigr = alt_sigma_r(left);
    lemma_build_maps_edges(left, 1, 2, sigl, ts, 0);
    lemma_build_maps_edges(right, rstart, rstart + 1, sigr, ts, fl.trans.len() as int);
    assert forall|b: int| chr_step(ts, x_in, c).contains(b) implies rhs.contains(b) by {
        let a = choose|a: int| x_in.contains(a) && chr_edge(ts, a, b, c);
        lemma_alt_chr_edge(left, right, a, b, c);
        if chr_edge(fls.trans, a - 1, b - 1, c) && 1 <= a < rstart && 1 <= b < rstart {
            assert(sl.contains(a - 1));
            assert(xl.contains(b - 1)) by {
                assert(sl.contains(a - 1) && chr_edge(fls.trans, a - 1, b - 1, c));
            }
        } else {
            assert(chr_edge(frs.trans, a - rstart, b - rstart, c) && rstart <= a < fin && rstart
                <= b < fin);
            assert(sr.contains(a - rstart));
            assert(xr.contains(b - rstart)) by {
                assert(sr.contains(a - rstart) && chr_edge(frs.trans, a - rstart, b - rstart, c));
            }
        }
    }
    assert forall|b: int| rhs.contains(b) implies chr_step(ts, x_in, c).contains(b) by {
        if 1 <= b < rstart && xl.contains(b - 1) {
            let a0 = choose|a0: int| sl.contains(a0) && chr_edge(fls.trans, a0, b - 1, c);
            assert(chr_edge(ts, sigl(a0), sigl(b - 1), c));
            assert(sigl(a0) == a0 + 1 && sigl(b - 1) == b);
            assert(x_in.contains(a0 + 1));
            assert(x_in.contains(a0 + 1) && chr_edge(ts, a0 + 1, b, c));
        } else {
            assert(rstart <= b < fin && xr.contains(b - rstart));
            let a0 = choose|a0: int| sr.contains(a0) && chr_edge(frs.trans, a0, b - rstart, c);
            assert(chr_edge(ts, sigr(a0), sigr(b - rstart), c));
            assert(sigr(a0) == a0 + rstart && sigr(b - rstart) == b);
            assert(x_in.contains(a0 + rstart));
            assert(x_in.contains(a0 + rstart) && chr_edge(ts, a0 + rstart, b, c));
        }
    }
    assert(chr_step(ts, x_in, c) =~= rhs);
}

/// After any word, the live states of the alternation automaton are
/// exactly: the initial state while nothing was read, the embedded live
/// states of both standalone fragment automata, and the shared final state
/// as soon as either fragment's own final state is live.
/// Before any symbol is read, the alternation automaton's live states are
/// the initial state, both embedded entry closures, and possibly the final
/// state.
#[verifier::rlimit(50)]
proof fn lemma_alt_decomp_empty(left: REType, right: REType)
    ensures
        after_word(alt_trans(left, right), set![0int], Seq::<char>::empty()) == alt_live(
            left,
            right,
            Seq::<char>::empty(),
        ),
{
    lemma_alt_layout(left, right);
    let ts = alt_trans(left, right);
    let fls = build_spec(left, 0, 1);
    let frs = build_spec(right, 0, 1);
    let fl = build_spec(left, 1, 2);
    let rstart = alt_rstart(left);
    let fr = build_spec(right, rstart, rstart + 1);
    let mid = alt_embed(left, right, set![0int], set![0int], false);
    assert(eps_edge(ts, 0, 1)) by {
        assert(ts[(fl.trans.len() + fr.trans.len()) as int] == eps_t(0, 1));
    }
    assert(eps_edge(ts, 0, rstart)) by {
        assert(ts[(fl.trans.len() + fr.trans.len() + 1) as int] == eps_t(0, fl.next));
    }
    assert(mid.contains(1));
    assert(mid.contains(rstart));
    let c0 = eclose(ts, mid).insert(0);
    lemma_eclose_widens(ts, mid);
    assert forall|x: int, y: int| c0.contains(x) && eps_edge(ts, x, y) implies c0.contains(y) by {
        if x == 0 {
            lemma_alt_eps_edge(left, right, x, y);
            assert(y == 1 || y == rstart);
        } else {
            assert(eclose(ts, mid).contains(x));
            crate::semantics::lemma_eclose_extend(ts, mid, x, y);
        }
    }
    assert(set![0int].subset_of(c0));
    lemma_eclose_least(ts, set![0int], c0);
    assert forall|y: int| eclose(ts, mid).contains(y) implies eclose(ts, set![0int]).contains(
        y,
    ) by {
        let a = choose|a: int| mid.contains(a) && eps_reach(ts, a, y);
        assert(a == 1 || a == rstart);
        assert(eps_reach_k(ts, 0, a, 1)) by {
            assert(eps_edge(ts, 0, a) && eps_reach_k(ts, a, a, 0));
        }
        crate::semantics::lemma_eps_reach_trans(ts, 0, a, y);
        assert(set![0int].contains(0) && eps_reach(ts, 0, y));
    }
    lemma_eclose_widens(ts, set![0int]);
    assert(eclose(ts, set![0int]) =~= c0);
    lemma_alt_eclose_decomp(left, right, set![0int], set![0int]);
    let cl = eclose(fls.trans, set![0int]);
    let cr = eclose(frs.trans, set![0int]);
    assert(eclose(ts, mid) == alt_embed(
        left,
        right,
        cl,
        cr,
        cl.contains(fls.fin) || cr.contains(frs.fin),
    ));
    assert(after_word(ts, set![0int], Seq::<char>::empty()) == c0);
    assert(alt_live(left, right, Seq::<char>::empty()) == eclose(ts, mid).insert(0));
}

/// After any word, the live states of the alternation automaton are
/// exactly: the initial state while nothing was read, the embedded live
/// states of both standalone fragment automata, and the shared final state
/// as soon as either fragment's own final state is live.
#[verifier::rlimit(50)]
proof fn lemma_alt_decomp(left: REType, right: REType, w: Seq<char>)
    ensures
        after_word(alt_trans(left, right), set![0int], w) == alt_live(left, right, w),
    decreases w.len(),
{
    lemma_alt_layout(left, right);
    lemma_build_bounds(left, 0, 1);
    lemma_build_bounds(right, 0, 1);
    let ts = alt_trans(left, right);
    let fls = build_spec(left, 0, 1);
    let frs = build_spec(right, 0, 1);
    if w.len() == 0 {
        lemma_alt_decomp_empty(left, right);
        assert(w =~= Seq::<char>::empty());
    } else {
        lemma_alt_decomp(left, right, w.drop_last());
        let wp = w.drop_last();
        let c = w.last();
        let al = after_word(fls.trans, set![0int], wp);
        let ar = after_word(frs.trans, set![0int], wp);
        lemma_after_word_range(left, wp);
        lemma_after_word_range(right, wp);
        let wf = al.contains(fls.fin) || ar.contains(frs.fin);
        let core = alt_embed(left, right, al, ar, wf);
        lemma_alt_chr_decomp(left, right, al, ar, wf, c);
        if wp.len() == 0 {
            // the extra live initial state takes no labeled step
            assert(chr_step(ts, core.insert(0), c) =~= chr_step(ts, core, c)) by {
                assert forall|b: int| chr_step(ts, core.insert(0), c).contains(b) implies chr_step(
                    ts,
                    core,
                    c,
                ).contains(b) by {
                    let a = choose|a: int| core.insert(0).contains(a) && chr_edge(ts, a, b, c);
                    lemma_alt_chr_edge(left, right, a, b, c);
                    assert(core.contains(a));
                    assert(core.contains(a) && chr_edge(ts, a, b, c));
                }
                assert forall|b: int| chr_step(ts, core, c).contains(b) implies chr_step(
                    ts,
                    core.insert(0),
                    c,
                ).contains(b) by {
                    let a = choose|a: int| core.contains(a) && chr_edge(ts, a, b, c);
                    assert(core.insert(0).contains(a) && chr_edge(ts, a, b, c));
                }
            }
        }
        let xl = chr_step(fls.trans, al, c);
        let xr = chr_step(frs.trans, ar, c);
        assert forall|x: int| xl.contains(x) implies 0 <= x < fls.next by {
            let a = choose|a: int| al.contains(a) && chr_edge(fls.trans, a, x, c);
            let i = choose|i: int| 0 <= i < fls.trans.len() && fls.trans[i] == chr_t(a, x, c);
        }
        assert forall|x: int| xr.contains(x) implies 0 <= x < frs.next by {
            let a = choose|a: int| ar.contains(a) && chr_edge(frs.trans, a, x, c);
            let i = choose|i: int| 0 <= i < frs.trans.len() && frs.trans[i] == chr_t(a, x, c);
        }
        lemma_alt_eclose_decomp(left, right, xl, xr);
        assert(after_word(ts, set![0int], w) == eclose(ts, chr_step(ts, core, c)));
        assert(eclose(ts, chr_step(ts, core, c)) == eclose(ts, alt_embed(
            left,
            right,
            xl,
            xr,
            false,
        )));
        assert(alt_live(left, right, w) == alt_embed(
            left,
            right,
            eclose(fls.trans, xl),
            eclose(frs.trans, xr),
            eclose(fls.trans, xl).contains(fls.fin) || eclose(frs.trans, xr).contains(frs.fin),
        ));
    }
}

/// Alternation is complete: a word the alternation's automaton accepts is
/// accepted by at least one of the two branch automata on their own.
pub proof fn lemma_alt_complete(left: Box<REType>, right: Box<REType>, w: Seq<char>)
    requires
        build_accepts(REType::Alt { left, right }, w),
    ensures
        build_accepts(*left, w) || build_accepts(*right, w),
{
    lemma_alt_layout(*left, *right);
    let fa = build_spec(REType::Alt { left, right }, 0, 1);
    let fin = alt_fin(*left, *right);
    assert(fa.trans =~= alt_trans(*left, *right));
    assert(fa.fin == fin);
    lemma_alt_decomp(*left, *right, w);
    assert(alt_live(*left, *right, w).contains(fin));
}

/// Alternation is exact: the automaton built for an alternation accepts
/// precisely the union of the two branch languages.
pub proof fn lemma_alt_exact(left: Box<REType>, right: Box<REType>, w: Seq<char>)
    ensures
        build_accepts(REType::Alt { left, right }, w) <==> (build_accepts(*left, w)
            || build_accepts(*right, w)),
{
    let alt = REType::Alt { left, right };
    if build_accepts(alt, w) {
        lemma_alt_complete(left, right, w);
    }
    if build_accepts(*left, w) {
        lemma_alt_sound_left(left, right, w);
    }
    if build_accepts(*right, w) {
        lemma_alt_sound_right(left, right, w);
    }
}

/// The transition relation of the automaton built for a concatenation: the
/// left fragment at its standalone numbering, the right fragment spliced
/// onto the left fragment's final state.
spec fn conc_trans(left: REType, right: REType) -> Seq<TransV> {
    let fl = build_spec(left, 0, 1);
    let fr = build_spec(right, fl.fin, fl.next);
    fl.trans + fr.trans
}

/// The map that embeds the standalone right automaton's states into the
/// concatenation automaton: its initial state becomes the splice state.
spec fn conc_sigma(left: REType) -> spec_fn(int) -> int {
    let fl = build_spec(left, 0, 1);
    |x: int| if x == 0 { fl.fin } else { x - 1 + fl.next }
}

/// A set of standalone right-automaton states viewed inside the
/// concatenation automaton.
spec fn conc_embed(left: REType, right: REType, s: Set<int>) -> Set<int> {
    let fl = build_spec(left, 0, 1);
    let fr = build_spec(right, fl.fin, fl.next);
    Set::new(
        |y: int|
            {
                ||| (y == fl.fin && s.contains(0))
                ||| (fl.next <= y < fr.next && s.contains(y - fl.next + 1))
            },
    )
}

/// The right-fragment states live after `w`: for every split of `w` at
/// which the left automaton reaches its final state, whatever the right
/// automaton reaches on the rest of the word.
spec fn conc_right_live(left: REType, right: REType, w: Seq<char>) -> Set<int> {
    let fl = build_spec(left, 0, 1);
    let frs = build_spec(right, 0, 1);
    Set::new(
        |y: int|
            exists|k: int|
                0 <= k <= w.len() && after_word(fl.trans, set![0int], w.take(k)).contains(fl.fin)
                    && after_word(frs.trans, set![0int], w.skip(k)).contains(y),
    )
}

/// The numeric layout of a concatenation automaton.
proof fn lemma_conc_layout(left: REType, right: REType)
    ensures
        ({
            let fl = build_spec(left, 0, 1);
            let frs = build_spec(right, 0, 1);
            let fr = build_spec(right, fl.fin, fl.next);
            &&& fr.trans == frs.trans.map_values(
                |tv: TransV| crate::nfa::relabel_t(conc_sigma(left), tv),
            )
            &&& fr.fin == frs.fin - 1 + fl.next
            &&& fr.next == frs.next - 1 + fl.next
            &&& 1 <= fl.fin < fl.next
            &&& 2 <= fl.next
            &&& 1 <= frs.fin < frs.next
            &&& 2 <= frs.next
            &&& fl.next <= fr.fin < fr.next
        }),
{
    let fl = build_spec(left, 0, 1);
    lemma_build_relabel(right, 0, 1, fl.fin, fl.next, conc_sigma(left));
    lemma_build_bounds(left, 0, 1);
    lemma_build_bounds(right, 0, 1);
}

/// Every epsilon transition of the concatenation automaton belongs to the
/// left fragment or is an embedded right-fragment transition.
proof fn lemma_conc_eps_edge(left: REType, right: REType, a: int, b: int)
    requires
        eps_edge(conc_trans(left, right), a, b),
    ensures
        ({
            let fl = build_spec(left, 0, 1);
            let frs = build_spec(right, 0, 1);
            let fr = build_spec(right, fl.fin, fl.next);
            ||| (eps_edge(fl.trans, a, b) && 0 <= a < fl.next && 1 <= b < fl.next && a != fl.fin)
            ||| (eps_edge(frs.trans, if a == fl.fin { 0int } else { a - fl.next + 1 }, b - fl.next
                + 1) && (a == fl.fin || fl.next <= a < fr.next) && fl.next <= b < fr.next)
        }),
{
    lemma_conc_layout(left, right);
    lemma_build_bounds(left, 0, 1);
    lemma_build_bounds(right, 0, 1);
    let ts = conc_trans(left, right);
    let fl = build_spec(left, 0, 1);
    let frs = build_spec(right, 0, 1);
    let fr = build_spec(right, fl.fin, fl.next);
    let i = choose|i: int| 0 <= i < ts.len() && ts[i] == eps_t(a, b);
    if i < fl.trans.len() {
        assert(ts[i] == fl.trans[i]);
        assert(eps_edge(fl.trans, a, b));
    } else {
        let i0 = i - fl.trans.len();
        assert(ts[i] == fr.trans[i0]);
        let sig = conc_sigma(left);
        assert(fr.trans[i0] == crate::nfa::relabel_t(sig, frs.trans[i0]));
        let a0 = frs.trans[i0].from;
        let b0 = frs.trans[i0].to;
        assert(a == sig(a0) && b == sig(b0));
        assert(0 <= a0 < frs.next && 1 <= b0 < frs.next);
        assert(b == b0 - 1 + fl.next);
        if a0 == 0 {
            assert(a == fl.fin);
            assert(eps_edge(frs.trans, 0, b - fl.next + 1)) by {
                assert(frs.trans[i0] == eps_t(0, b - fl.next + 1));
            }
        } else {
            assert(a == a0 - 1 + fl.next);
            assert(eps_edge(frs.trans, a - fl.next + 1, b - fl.next + 1)) by {
                assert(frs.trans[i0] == eps_t(a - fl.next + 1, b - fl.next + 1));
            }
        }
    }
}

/// Every labeled transition of the concatenation automaton belongs to the
/// left fragment or is an embedded right-fragment transition.
proof fn lemma_conc_chr_edge(left: REType, right: REType, a: int, b: int, c: char)
    requires
        chr_edge(conc_trans(left, right), a, b, c),
    ensures
        ({
            let fl = build_spec(left, 0, 1);
            let frs = build_spec(right, 0, 1);
            let fr = build_spec(right, fl.fin, fl.next);
            ||| (chr_edge(fl.trans, a, b, c) && 0 <= a < fl.next && 1 <= b < fl.next && a
                != fl.fin)
            ||| (chr_edge(frs.trans, if a == fl.fin { 0int } else { a - fl.next + 1 }, b - fl.next
                + 1, c) && (a == fl.fin || fl.next <= a < fr.next) && fl.next <= b < fr.next)
        }),
{
    lemma_conc_layout(left, right);
    lemma_build_bounds(left, 0, 1);
    lemma_build_bounds(right, 0, 1);
    let ts = conc_trans(left, right);
    let fl = build_spec(left, 0, 1);
    let frs = build_spec(right, 0, 1);
    let fr = build_spec(right, fl.fin, fl.next);
    let i = choose|i: int| 0 <= i < ts.len() && ts[i] == chr_t(a, b, c);
    if i < fl.trans.len() {
        assert(ts[i] == fl.trans[i]);
        assert(chr_edge(fl.trans, a, b, c));
    } else {
        let i0 = i - fl.trans.len();
        assert(ts[i] == fr.trans[i0]);
        let sig = conc_sigma(left);
        assert(fr.trans[i0] == crate::nfa::relabel_t(sig, frs.trans[i0]));
        let a0 = frs.trans[i0].from;
        let b0 = frs.trans[i0].to;
        assert(a == sig(a0) && b == sig(b0));
        assert(0 <= a0 < frs.next && 1 <= b0 < frs.next);
        assert(b == b0 - 1 + fl.next);
        if a0 == 0 {
            assert(a == fl.fin);
            assert(chr_edge(frs.trans, 0, b - fl.next + 1, c)) by {
                assert(frs.trans[i0] == chr_t(0, b - fl.next + 1, c));
            }
        } else {
            assert(a == a0 - 1 + fl.next);
            assert(chr_edge(frs.trans, a - fl.next + 1, b - fl.next + 1, c)) by {
                assert(frs.trans[i0] == chr_t(a - fl.next + 1, b - fl.next + 1, c));
            }
        }
    }
}

/// Closing a left set and an embedded right set under the concatenation
/// automaton's epsilon transitions closes each fragment under its own, and
/// enters the right fragment exactly when the left fragment's final state
/// is reached.
#[verifier::rlimit(50)]
proof fn lemma_conc_eclose_decomp(left: REType, right: REType, sl: Set<int>, sr: Set<int>)
    requires
        forall|x: int| sl.contains(x) ==> 0 <= x < build_spec(left, 0, 1).next,
        forall|x: int| sr.contains(x) ==> 0 <= x < build_spec(right, 0, 1).next,
    ensures
        ({
            let fl = build_spec(left, 0, 1);
            let frs = build_spec(right, 0, 1);
            let cl = eclose(fl.trans, sl);
            let seeded = if cl.contains(fl.fin) {
                sr.insert(0)
            } else {
                sr
            };
            eclose(conc_trans(left, right), sl.union(conc_embed(left, right, sr))) == cl.union(
                conc_embed(left, right, eclose(frs.trans, seeded)),
            )
        }),
{
    lemma_conc_layout(left, right);
    lemma_build_bounds(left, 0, 1);
    lemma_build_bounds(right, 0, 1);
    let ts = conc_trans(left, right);
    let fl = build_spec(left, 0, 1);
    let frs = build_spec(right, 0, 1);
    let fr = build_spec(right, fl.fin, fl.next);
    let cl = eclose(fl.trans, sl);
    let seeded = if cl.contains(fl.fin) {
        sr.insert(0)
    } else {
        sr
    };
    let cr = eclose(frs.trans, seeded);
    let lhs_in = sl.union(conc_embed(left, right, sr));
    let rhs = cl.union(conc_embed(left, right, cr));
    let sig = conc_sigma(left);
    let id = |x: int| x;
    // closed fragment sets stay inside their fragment's state range
    crate::semantics::lemma_eclose_members(fl.trans, sl);
    crate::semantics::lemma_eclose_members(frs.trans, seeded);
    assert forall|x: int| cl.contains(x) implies 0 <= x < fl.next by {
        if !sl.contains(x) {
            let m = choose|m: int| eps_edge(fl.trans, m, x);
            let i = choose|i: int| 0 <= i < fl.trans.len() && fl.trans[i] == eps_t(m, x);
        }
    }
    assert forall|x: int| cr.contains(x) implies 0 <= x < frs.next by {
        if !seeded.contains(x) {
            let m = choose|m: int| eps_edge(frs.trans, m, x);
            let i = choose|i: int| 0 <= i < frs.trans.len() && frs.trans[i] == eps_t(m, x);
        }
    }
    lemma_build_maps_edges(left, 0, 1, id, ts, 0);
    lemma_build_maps_edges(right, fl.fin, fl.next, sig, ts, fl.trans.len() as int);
    lemma_eclose_widens(ts, lhs_in);
    // the left closure and the renamed right closure are reachable
    assert forall|x: int| sl.contains(x) implies eclose(ts, lhs_in).contains(#[trigger] id(x)) by {
        assert(lhs_in.contains(x));
    }
    lemma_after_word_map(fl.trans, ts, id, sl, lhs_in, Seq::<char>::empty());
    assert forall|x: int| seeded.contains(x) implies eclose(ts, lhs_in).contains(
        #[trigger] sig(x),
    ) by {
        if sr.contains(x) {
            if x == 0 {
                assert(lhs_in.contains(fl.fin));
            } else {
                assert(lhs_in.contains(x - 1 + fl.next));
            }
        } else {
            assert(x == 0 && cl.contains(fl.fin));
            assert(eclose(ts, lhs_in).contains(id(fl.fin)));
        }
    }
    lemma_after_word_map(frs.trans, ts, sig, seeded, lhs_in, Seq::<char>::empty());
    assert forall|z: int| rhs.contains(z) implies eclose(ts, lhs_in).contains(z) by {
        if cl.contains(z) {
            assert(eclose(ts, lhs_in).contains(id(z)));
        } else if z == fl.fin && cr.contains(0) {
            assert(eclose(ts, lhs_in).contains(sig(0)));
        } else {
            assert(fl.next <= z < fr.next && cr.contains(z - fl.next + 1));
            assert(eclose(ts, lhs_in).contains(sig(z - fl.next + 1)));
            assert(sig(z - fl.next + 1) == z);
        }
    }
    // conversely, the decomposition is closed under the combined edges
    assert(lhs_in.subset_of(rhs)) by {
        lemma_eclose_widens(fl.trans, sl);
        lemma_eclose_widens(frs.trans, seeded);
    }
    assert forall|x: int, y: int| rhs.contains(x) && eps_edge(ts, x, y) implies rhs.contains(
        y,
    ) by {
        lemma_conc_eps_edge(left, right, x, y);
        if eps_edge(fl.trans, x, y) && 0 <= x < fl.next && 1 <= y < fl.next && x != fl.fin {
            assert(cl.contains(x));
            crate::semantics::lemma_eclose_extend(fl.trans, sl, x, y);
        } else {
            let x0 = if x == fl.fin {
                0int
            } else {
                x - fl.next + 1
            };
            assert(eps_edge(frs.trans, x0, y - fl.next + 1));
            assert(cr.contains(x0)) by {
                if x == fl.fin {
                    lemma_eclose_widens(frs.trans, seeded);
                }
            }
            crate::semantics::lemma_eclose_extend(frs.trans, seeded, x0, y - fl.next + 1);
        }
    }
    lemma_eclose_least(ts, lhs_in, rhs);
    assert(eclose(ts, lhs_in) =~= rhs);
}

/// One labeled step of the concatenation automaton is one labeled step of
/// each fragment, the right fragment stepping from the splice state too
/// when the left fragment's final state is live.
#[verifier::rlimit(50)]
proof fn lemma_conc_chr_decomp(left: REType, right: REType, sl: Set<int>, sr: Set<int>, c: char)
    requires
        forall|x: int| sl.contains(x) ==> 0 <= x < build_spec(left, 0, 1).next,
        forall|x: int| sr.contains(x) ==> 0 <= x < build_spec(right, 0, 1).next,
    ensures
        ({
            let fl = build_spec(left, 0, 1);
            let frs = build_spec(right, 0, 1);
            let seeded = if sl.contains(fl.fin) {
                sr.insert(0)
            } else {
                sr
            };
            chr_step(conc_trans(left, right), sl.union(conc_embed(left, right, sr)), c)
                == chr_step(fl.trans, sl, c).union(
                conc_embed(left, right, chr_step(frs.trans, seeded, c)),
            )
        }),
{
    lemma_conc_layout(left, right);
    lemma_build_bounds(left, 0, 1);
    lemma_build_bounds(right, 0, 1);
    let ts = conc_trans(left, right);
    let fl = build_spec(left, 0, 1);
    let frs = build_spec(right, 0, 1);
    let fr = build_spec(right, fl.fin, fl.next);
    let seeded = if sl.contains(fl.fin) {
        sr.insert(0)
    } else {
        sr
    };
    let x_in = sl.union(conc_embed(left, right, sr));
    let xl = chr_step(fl.trans, sl, c);
    let xr = chr_step(frs.trans, seeded, c);
    let rhs = xl.union(conc_embed(left, right, xr));
    let sig = conc_sigma(left);
    let id = |x: int| x;
    lemma_build_maps_edges(left, 0, 1, id, ts, 0);
    lemma_build_maps_edges(right, fl.fin, fl.next, sig, ts, fl.trans.len() as int);
    assert forall|b: int| chr_step(ts, x_in, c).contains(b) implies rhs.contains(b) by {
        let a = choose|a: int| x_in.contains(a) && chr_edge(ts, a, b, c);
        lemma_conc_chr_edge(left, right, a, b, c);
        if chr_edge(fl.trans, a, b, c) && 0 <= a < fl.next && 1 <= b < fl.next && a != fl.fin {
            assert(sl.contains(a));
            assert(xl.contains(b)) by {
                assert(sl.contains(a) && chr_edge(fl.trans, a, b, c));
            }
        } else {
            let a0 = if a == fl.fin {
                0int
            } else {
                a - fl.next + 1
            };
            assert(chr_edge(frs.trans, a0, b - fl.next + 1, c));
            assert(seeded.contains(a0));
            assert(xr.contains(b - fl.next + 1)) by {
                assert(seeded.contains(a0) && chr_edge(frs.trans, a0, b - fl.next + 1, c));
            }
        }
    }
    assert forall|b: int| rhs.contains(b) implies chr_step(ts, x_in, c).contains(b) by {
        if xl.contains(b) {
            let a = choose|a: int| sl.contains(a) && chr_edge(fl.trans, a, b, c);
            assert(chr_edge(ts, id(a), id(b), c));
            assert(x_in.contains(a) && chr_edge(ts, a, b, c));
        } else if b == fl.fin && xr.contains(0) {
            let a0 = choose|a0: int| seeded.contains(a0) && chr_edge(frs.trans, a0, 0, c);
            let i = choose|i: int| 0 <= i < frs.trans.len() && frs.trans[i] == chr_t(a0, 0, c);
            assert(false);
        } else {
            assert(fl.next <= b < fr.next && xr.contains(b - fl.next + 1));
            let b0 = b - fl.next + 1;
            let a0 = choose|a0: int| seeded.contains(a0) && chr_edge(frs.trans, a0, b0, c);
            assert(chr_edge(ts, sig(a0), sig(b0), c));
            assert(sig(b0) == b);
            if a0 == 0 {
                assert(x_in.contains(fl.fin)) by {
                    if !sr.contains(0) {
                        assert(sl.contains(fl.fin));
                    }
                }
                assert(x_in.contains(fl.fin) && chr_edge(ts, fl.fin, b, c));
            } else {
                assert(x_in.contains(a0 - 1 + fl.next));
                assert(x_in.contains(a0 - 1 + fl.next) && chr_edge(ts, a0 - 1 + fl.next, b, c));
            }
        }
    }
    assert(chr_step(ts, x_in, c) =~= rhs);
}

/// After any word, the live states of the concatenation automaton are
/// exactly the left fragment's own live states together with, for every
/// split at which the left fragment has reached its final state, the right
/// fragment's live states on the remaining suffix.
#[verifier::rlimit(50)]
proof fn lemma_conc_decomp(left: REType, right: REType, w: Seq<char>)
    ensures
        after_word(conc_trans(left, right), set![0int], w) == after_word(
            build_spec(left, 0, 1).trans,
            set![0int],
            w,
        ).union(conc_embed(left, right, conc_right_live(left, right, w))),
    decreases w.len(),
{
    lemma_conc_layout(left, right);
    let ts = conc_trans(left, right);
    let fl = build_spec(left, 0, 1);
    let frs = build_spec(right, 0, 1);
    if w.len() == 0 {
        assert(set![0int] =~= set![0int].union(conc_embed(left, right, Set::<int>::empty())));
        lemma_conc_eclose_decomp(left, right, set![0int], Set::<int>::empty());
        let rl0 = conc_right_live(left, right, w);
        assert(w.take(0) =~= w);
        assert(w.skip(0) =~= w);
        if eclose(fl.trans, set![0int]).contains(fl.fin) {
            assert(Set::<int>::empty().insert(0) =~= set![0int]);
            assert(rl0 =~= eclose(frs.trans, set![0int])) by {
                assert forall|y: int| rl0.contains(y) implies eclose(frs.trans, set![0int]).contains(
                    y,
                ) by {
                    let k = choose|k: int|
                        0 <= k <= w.len() && after_word(fl.trans, set![0int], w.take(k)).contains(
                            fl.fin,
                        ) && after_word(frs.trans, set![0int], w.skip(k)).contains(y);
                    assert(k == 0);
                }
                assert forall|y: int| eclose(frs.trans, set![0int]).contains(y) implies rl0.contains(
                    y,
                ) by {
                    assert(after_word(fl.trans, set![0int], w.take(0)).contains(fl.fin)
                        && after_word(frs.trans, set![0int], w.skip(0)).contains(y));
                }
            }
        } else {
            assert(rl0 =~= Set::<int>::empty()) by {
                assert forall|y: int| !rl0.contains(y) by {
                    if rl0.contains(y) {
                        let k = choose|k: int|
                            0 <= k <= w.len() && after_word(
                                fl.trans,
                                set![0int],
                                w.take(k),
                            ).contains(fl.fin) && after_word(
                                frs.trans,
                                set![0int],
                                w.skip(k),
                            ).contains(y);
                        assert(k == 0);
                    }
                }
            }
            assert(eclose(frs.trans, Set::<int>::empty()) =~= Set::<int>::empty());
        }
        assert(after_word(ts, set![0int], w) =~= after_word(fl.trans, set![0int], w).union(
            conc_embed(left, right, rl0),
        ));
    } else {
        lemma_conc_decomp(left, right, w.drop_last());
        let wp = w.drop_last();
        let c = w.last();
        let al = after_word(fl.trans, set![0int], wp);
        let rl = conc_right_live(left, right, wp);
        lemma_after_word_range(left, wp);
        assert forall|x: int| rl.contains(x) implies 0 <= x < frs.next by {
            let k = choose|k: int|
                0 <= k <= wp.len() && after_word(fl.trans, set![0int], wp.take(k)).contains(fl.fin)
                    && after_word(frs.trans, set![0int], wp.skip(k)).contains(x);
            lemma_after_word_range(right, wp.skip(k));
        }
        // when the left fragment has reached its final state, the right
        // fragment's initial state is already among the live right states
        if al.contains(fl.fin) {
            assert(rl.insert(0) =~= rl) by {
                assert(wp.take(wp.len() as int) =~= wp);
                assert(after_word(frs.trans, set![0int], wp.skip(wp.len() as int)).contains(0)) by {
                    assert(wp.skip(wp.len() as int) =~= Seq::<char>::empty());
                    lemma_eclose_widens(frs.trans, set![0int]);
                }
                assert(rl.contains(0));
            }
        }
        lemma_conc_chr_decomp(left, right, al, rl, c);
        let xl = chr_step(fl.trans, al, c);
        let xr = chr_step(frs.trans, rl, c);
        assert forall|x: int| xl.contains(x) implies 0 <= x < fl.next by {
            let a = choose|a: int| al.contains(a) && chr_edge(fl.trans, a, x, c);
            let i = choose|i: int| 0 <= i < fl.trans.len() && fl.trans[i] == chr_t(a, x, c);
            lemma_build_bounds(left, 0, 1);
        }
        assert forall|x: int| xr.contains(x) implies 0 <= x < frs.next by {
            let a = choose|a: int| rl.contains(a) && chr_edge(frs.trans, a, x, c);
            let i = choose|i: int| 0 <= i < frs.trans.len() && frs.trans[i] == chr_t(a, x, c);
            lemma_build_bounds(right, 0, 1);
        }
        lemma_conc_eclose_decomp(left, right, xl, xr);
        let alw = after_word(fl.trans, set![0int], w);
        let rlw = conc_right_live(left, right, w);
        let seeded = if alw.contains(fl.fin) {
            xr.insert(0)
        } else {
            xr
        };
        assert(eclose(frs.trans, seeded) =~= rlw) by {
            assert forall|y: int| eclose(frs.trans, seeded).contains(y) implies rlw.contains(y) by {
                let a = choose|a: int| seeded.contains(a) && eps_reach(frs.trans, a, y);
                if xr.contains(a) {
                    let a0 = choose|a0: int| rl.contains(a0) && chr_edge(frs.trans, a0, a, c);
                    let k = choose|k: int|
                        0 <= k <= wp.len() && after_word(fl.trans, set![0int], wp.take(k)).contains(
                            fl.fin,
                        ) && after_word(frs.trans, set![0int], wp.skip(k)).contains(a0);
                    assert((w.skip(k)).drop_last() =~= wp.skip(k));
                    assert((w.skip(k)).last() == c);
                    assert(after_word(frs.trans, set![0int], w.skip(k)).contains(y)) by {
                        let mid = chr_step(
                            frs.trans,
                            after_word(frs.trans, set![0int], wp.skip(k)),
                            c,
                        );
                        assert(mid.contains(a)) by {
                            assert(after_word(frs.trans, set![0int], wp.skip(k)).contains(a0)
                                && chr_edge(frs.trans, a0, a, c));
                        }
                        assert(mid.contains(a) && eps_reach(frs.trans, a, y));
                    }
                    assert(w.take(k) =~= wp.take(k));
                    assert(after_word(fl.trans, set![0int], w.take(k)).contains(fl.fin)
                        && after_word(frs.trans, set![0int], w.skip(k)).contains(y));
                } else {
                    assert(a == 0 && alw.contains(fl.fin));
                    let k = w.len() as int;
                    assert(w.take(k) =~= w);
                    assert(w.skip(k) =~= Seq::<char>::empty());
                    assert(after_word(frs.trans, set![0int], w.skip(k)).contains(y)) by {
                        assert(set![0int].contains(0) && eps_reach(frs.trans, 0, y));
                    }
                    assert(after_word(fl.trans, set![0int], w.take(k)).contains(fl.fin)
                        && after_word(frs.trans, set![0int], w.skip(k)).contains(y));
                }
            }
            assert forall|y: int| rlw.contains(y) implies eclose(frs.trans, seeded).contains(y) by {
                let k = choose|k: int|
                    0 <= k <= w.len() && after_word(fl.trans, set![0int], w.take(k)).contains(
                        fl.fin,
                    ) && after_word(frs.trans, set![0int], w.skip(k)).contains(y);
                if k == w.len() {
                    assert(w.take(k) =~= w);
                    assert(w.skip(k) =~= Seq::<char>::empty());
                    assert(alw.contains(fl.fin));
                    assert(seeded.contains(0));
                    let a = choose|a: int| set![0int].contains(a) && eps_reach(frs.trans, a, y);
                    assert(seeded.contains(0) && eps_reach(frs.trans, 0, y));
                } else {
                    assert((w.skip(k)).drop_last() =~= wp.skip(k));
                    assert((w.skip(k)).last() == c);
                    let mid = chr_step(frs.trans, after_word(frs.trans, set![0int], wp.skip(k)), c);
                    assert(after_word(frs.trans, set![0int], w.skip(k)) == eclose(frs.trans, mid));
                    let b = choose|b: int| mid.contains(b) && eps_reach(frs.trans, b, y);
                    let a0 = choose|a0: int|
                        after_word(frs.trans, set![0int], wp.skip(k)).contains(a0) && chr_edge(
                            frs.trans,
                            a0,
                            b,
                            c,
                        );
                    assert(w.take(k) =~= wp.take(k));
                    assert(rl.contains(a0)) by {
                        assert(after_word(fl.trans, set![0int], wp.take(k)).contains(fl.fin)
                            && after_word(frs.trans, set![0int], wp.skip(k)).contains(a0));
                    }
                    assert(xr.contains(b)) by {
                        assert(rl.contains(a0) && chr_edge(frs.trans, a0, b, c));
                    }
                    assert(seeded.contains(b) && eps_reach(frs.trans, b, y));
                }
            }
        }
        assert(after_word(ts, set![0int], w) =~= alw.union(conc_embed(left, right, rlw)));
    }
}

/// Concatenation is complete: a word the concatenation's automaton accepts
/// splits into a prefix the left automaton accepts and a suffix the right
/// automaton accepts.
pub proof fn lemma_conc_complete(left: Box<REType>, right: Box<REType>, w: Seq<char>)
    requires
        build_accepts(REType::Conc { left, right }, w),
    ensures
        exists|k: int|
            0 <= k <= w.len() && build_accepts(*left, #[trigger] w.take(k)) && build_accepts(
                *right,
                w.skip(k),
            ),
{
    lemma_conc_layout(*left, *right);
    lemma_after_word_range(*left, w);
    let fc = build_spec(REType::Conc { left, right }, 0, 1);
    let fl = build_spec(*left, 0, 1);
    let frs = build_spec(*right, 0, 1);
    let fr = build_spec(*right, fl.fin, fl.next);
    assert(fc.trans =~= conc_trans(*left, *right));
    assert(fc.fin == fr.fin);
    lemma_conc_decomp(*left, *right, w);
    let rlw = conc_right_live(*left, *right, w);
    assert(conc_embed(*left, *right, rlw).contains(fc.fin));
    assert(rlw.contains(frs.fin));
    let k = choose|k: int|
        0 <= k <= w.len() && after_word(fl.trans, set![0int], w.take(k)).contains(fl.fin)
            && after_word(frs.trans, set![0int], w.skip(k)).contains(frs.fin);
    assert(build_accepts(*left, w.take(k)) && build_accepts(*right, w.skip(k)));
}

/// Concatenation is exact: the automaton built for a concatenation accepts
/// precisely the words that split into a left-language prefix and a
/// right-language suffix.
pub proof fn lemma_conc_exact(left: Box<REType>, right: Box<REType>, w: Seq<char>)
    ensures
        build_accepts(REType::Conc { left, right }, w) <==> exists|k: int|
            0 <= k <= w.len() && build_accepts(*left, #[trigger] w.take(k)) && build_accepts(
                *right,
                w.skip(k),
            ),
{
    let whole = REType::Conc { left, right };
    if build_accepts(whole, w) {
        lemma_conc_complete(left, right, w);
    }
    if exists|k: int|
        0 <= k <= w.len() && build_accepts(*left, #[trigger] w.take(k)) && build_accepts(
            *right,
            w.skip(k),
        ) {
        let k = choose|k: int|
            0 <= k <= w.len() && build_accepts(*left, #[trigger] w.take(k)) && build_accepts(
                *right,
                w.skip(k),
            );
        lemma_conc_sound(left, right, w.take(k), w.skip(k));
        assert(w.take(k) + w.skip(k) =~= w);
    }
}

/// The automaton built from a star accepts the empty word: zero repetitions
/// of the inner language always succeed.
pub proof fn lemma_star_accepts_empty(val: Box<REType>)
    ensures
        build_accepts(REType::Star { val }, Seq::<char>::empty()),
{
    let f = build_spec(REType::Star { val }, 0, 1);
    let ts = f.trans;
    let fi = build_spec(*val, 1, 2);
    let skip_at = fi.trans.len() + 1;
    assert(ts[skip_at as int] == eps_t(0, f.fin));
    assert(eps_edge(ts, 0, f.fin));
    assert(eps_reach_k(ts, 0, f.fin, 1)) by {
        assert(eps_edge(ts, 0, f.fin) && eps_reach_k(ts, f.fin, f.fin, 0));
    }
    assert(after_word(ts, set![0int], Seq::<char>::empty()).contains(f.fin)) by {
        assert(set![0int].contains(0) && eps_reach(ts, 0, f.fin));
    }
}

} // verus!
