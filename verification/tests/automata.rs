use regex_nfa::fsa::FSA;
use regex_nfa::nfa::NFA;
use regex_nfa::regular_expressions::REType;

fn phi() -> REType {
    REType::Phi {}
}

fn eps() -> REType {
    REType::Eps {}
}

fn ch(c: char) -> REType {
    REType::Char { val: c }
}

fn alt(l: REType, r: REType) -> REType {
    REType::Alt { left: Box::new(l), right: Box::new(r) }
}

fn conc(l: REType, r: REType) -> REType {
    REType::Conc { left: Box::new(l), right: Box::new(r) }
}

fn star(v: REType) -> REType {
    REType::Star { val: Box::new(v) }
}

fn accepts(t: REType, w: &str) -> bool {
    let mut fsa = FSA::new(NFA::new(t));
    fsa.run(w.to_string())
}

// The sample expression: eps ((a*)* (phi | b)), which simplifies to (a*b).
fn sample() -> REType {
    conc(eps(), conc(star(star(ch('a'))), alt(phi(), ch('b'))))
}

#[test]
fn simp_drops_phi_alternative() {
    assert!(alt(phi(), ch('b')).simp() == ch('b'));
    assert!(alt(ch('b'), phi()).simp() == ch('b'));
    assert!(alt(conc(phi(), ch('a')), ch('b')).simp() == ch('b'));
}

#[test]
fn simp_merges_equal_alternatives() {
    assert!(alt(ch('a'), ch('a')).simp() == ch('a'));
    // the sides only become equal after their own simplification
    assert!(alt(alt(phi(), ch('a')), ch('a')).simp() == ch('a'));
}

#[test]
fn simp_collapses_phi_concatenation() {
    assert!(conc(phi(), ch('a')).simp() == phi());
    assert!(conc(ch('a'), phi()).simp() == phi());
    assert!(conc(ch('a'), alt(phi(), phi())).simp() == phi());
}

#[test]
fn simp_drops_eps_factor() {
    assert!(conc(eps(), ch('a')).simp() == ch('a'));
    assert!(conc(ch('a'), eps()).simp() == ch('a'));
}

#[test]
fn simp_star_of_phi_is_eps() {
    assert!(star(phi()).simp() == eps());
    assert!(star(alt(phi(), conc(phi(), ch('a')))).simp() == eps());
}

#[test]
fn simp_collapses_nested_star() {
    assert!(star(star(ch('a'))).simp() == star(ch('a')));
    // the inner star only appears after simplifying the child
    assert!(star(conc(eps(), star(ch('a')))).simp() == star(ch('a')));
}

#[test]
fn simp_leaves_leaves_alone() {
    assert!(phi().simp() == phi());
    assert!(eps().simp() == eps());
    assert!(ch('q').simp() == ch('q'));
}

#[test]
fn simp_idempotent_on_samples() {
    let trees = [
        sample(),
        alt(alt(phi(), ch('a')), ch('a')),
        conc(star(phi()), alt(ch('a'), ch('a'))),
        star(star(star(ch('z')))),
    ];
    for t in trees {
        let once = t.simp();
        let twice = once.simp();
        assert!(twice == once);
    }
}

#[test]
fn simp_preserves_language_on_samples() {
    let words = ["", "a", "b", "ab", "aab", "ba", "aaabbbb"];
    for w in words {
        assert_eq!(accepts(sample(), w), accepts(sample().simp(), w));
        let t = alt(conc(eps(), ch('a')), star(phi()));
        assert_eq!(accepts(t.simp(), w), {
            let t2 = alt(conc(eps(), ch('a')), star(phi()));
            accepts(t2, w)
        });
    }
}

#[test]
fn phi_accepts_nothing() {
    assert!(!accepts(phi(), ""));
    assert!(!accepts(phi(), "a"));
    assert!(!accepts(phi(), "phi"));
}

#[test]
fn eps_accepts_exactly_empty() {
    assert!(accepts(eps(), ""));
    assert!(!accepts(eps(), "a"));
    assert!(!accepts(eps(), "ab"));
}

#[test]
fn star_accepts_empty_word() {
    assert!(accepts(star(ch('a')), ""));
    assert!(accepts(star(phi()), ""));
    assert!(accepts(star(conc(ch('a'), ch('b'))), ""));
}

#[test]
fn star_accepts_repetitions() {
    let t = star(ch('a'));
    assert!(accepts(t, "aaa"));
    assert!(!accepts(star(ch('a')), "ab"));
}

#[test]
fn conc_accepts_exactly_splittable_words() {
    let t = conc(ch('a'), ch('b'));
    assert!(accepts(t, "ab"));
    assert!(!accepts(conc(ch('a'), ch('b')), ""));
    assert!(!accepts(conc(ch('a'), ch('b')), "a"));
    assert!(!accepts(conc(ch('a'), ch('b')), "b"));
    assert!(!accepts(conc(ch('a'), ch('b')), "ba"));
    let both_sides = conc(star(ch('a')), conc(ch('a'), ch('b')));
    assert!(accepts(both_sides, "aaab"));
}

#[test]
fn alt_accepts_exactly_the_union() {
    let t = || alt(ch('a'), ch('b'));
    assert!(accepts(t(), "a"));
    assert!(accepts(t(), "b"));
    assert!(!accepts(t(), ""));
    assert!(!accepts(t(), "ab"));
    assert!(!accepts(t(), "c"));
}

#[test]
fn end_to_end_scenario() {
    let simplified = sample().simp();
    let mut fsa = FSA::new(NFA::new(simplified));
    assert!(!fsa.run("".to_string()));
    assert!(fsa.run("b".to_string()));
    assert!(fsa.run("ab".to_string()));
    assert!(fsa.run("aaab".to_string()));
    assert!(!fsa.run("aaabbbb".to_string()));
    assert!(!fsa.run("ba".to_string()));
}

#[test]
fn one_simulator_serves_many_words() {
    let mut fsa = FSA::new(NFA::new(star(ch('a'))));
    assert!(fsa.run("".to_string()));
    assert!(fsa.run("aa".to_string()));
    assert!(!fsa.run("b".to_string()));
    assert!(fsa.run("a".to_string()));
}

#[test]
fn out_of_alphabet_characters_reject() {
    assert!(!accepts(star(ch('a')), "ax"));
    assert!(!accepts(ch('a'), "\u{0}"));
    assert!(!accepts(eps(), "\u{0}"));
}

#[test]
fn pretty_round_trip() {
    assert_eq!(sample().simp().pretty(), "(a*b)");
}

#[test]
fn pretty_renders_each_form() {
    assert_eq!(phi().pretty(), "phi");
    assert_eq!(eps().pretty(), "eps");
    assert_eq!(ch('x').pretty(), "x");
    assert_eq!(alt(ch('a'), ch('b')).pretty(), "(a|b)");
    assert_eq!(conc(ch('a'), ch('b')).pretty(), "(ab)");
    assert_eq!(star(ch('a')).pretty(), "a*");
}

#[test]
fn nfa_shape_for_char() {
    let nfa = NFA::new(ch('a'));
    let transitions = nfa.get_transitions();
    assert_eq!(nfa.get_initial(), 0);
    assert_eq!(nfa.get_final(), 1);
    assert_eq!(transitions.len(), 1);
    assert!(!transitions[0].is_epsilon());
    assert_eq!(transitions[0].to_state(), 1);
    assert!(transitions[0].trigger(0, 'a'));
    assert!(!transitions[0].trigger(0, 'b'));
    assert!(!transitions[0].trigger(1, 'a'));
}

#[test]
fn nfa_shape_for_eps_and_phi() {
    let nfa = NFA::new(eps());
    let transitions = nfa.get_transitions();
    assert_eq!(transitions.len(), 1);
    assert!(transitions[0].is_epsilon());
    assert!(!transitions[0].trigger(0, '\u{0}'));

    let empty = NFA::new(phi());
    assert_eq!(empty.get_transitions().len(), 0);
    assert_ne!(empty.get_initial(), empty.get_final());
}

#[test]
fn is_phi_is_structural() {
    assert!(phi().is_phi());
    assert!(alt(phi(), conc(phi(), ch('a'))).is_phi());
    assert!(!alt(phi(), ch('a')).is_phi());
    assert!(conc(ch('a'), phi()).is_phi());
    assert!(!star(phi()).is_phi());
    assert!(!eps().is_phi());
}
