//! The regular-expression tree and its algebraic simplifier.

use vstd::prelude::*;

verus! {

/// A regular expression over single characters: the empty language, the
/// empty string, one character, alternation, concatenation, and Kleene star.
#[derive(PartialEq, Eq)]
pub enum REType {
    Phi {},
    Eps {},
    Char { val: char },
    Alt { left: Box<REType>, right: Box<REType> },
    Conc { left: Box<REType>, right: Box<REType> },
    Star { val: Box<REType> },
}

/// Relies on `String::push`: appends exactly the given character at the end.
#[verifier::external_body]
fn push_char(s: &mut String, c: char)
    ensures
        final(s)@ == old(s)@.push(c),
{
    s.push(c);
}

impl REType {
    /// Whether the expression denotes the empty language, judged
    /// structurally: `Phi` does; an alternation does iff both sides do; a
    /// concatenation does iff either side does; nothing else does.
    pub open spec fn spec_is_phi(self) -> bool
        decreases self,
    {
        match self {
            REType::Phi {} => true,
            REType::Alt { left, right } => left.spec_is_phi() && right.spec_is_phi(),
            REType::Conc { left, right } => left.spec_is_phi() || right.spec_is_phi(),
            _ => false,
        }
    }

    /// The simplified form of the expression: children first, then the
    /// algebraic rules for the node itself.
    pub open spec fn spec_simp(self) -> REType
        decreases self,
    {
        match self {
            REType::Phi {} => self,
            REType::Eps {} => self,
            REType::Char { .. } => self,
            REType::Alt { left, right } => {
                let l = left.spec_simp();
                let r = right.spec_simp();
                if l.spec_is_phi() {
                    r
                } else if r.spec_is_phi() {
                    l
                } else if l == r {
                    l
                } else {
                    REType::Alt { left: Box::new(l), right: Box::new(r) }
                }
            },
            REType::Conc { left, right } => {
                let l = left.spec_simp();
                let r = right.spec_simp();
                if l.spec_is_phi() || r.spec_is_phi() {
                    REType::Phi {}
                } else if l == (REType::Eps {}) {
                    r
                } else if r == (REType::Eps {}) {
                    l
                } else {
                    REType::Conc { left: Box::new(l), right: Box::new(r) }
                }
            },
            REType::Star { val } => {
                let v = val.spec_simp();
                if v.spec_is_phi() {
                    REType::Eps {}
                } else if v is Star {
                    v
                } else {
                    REType::Star { val: Box::new(v) }
                }
            },
        }
    }

    /// No simplification rule applies anywhere in the expression.
    pub open spec fn is_simplified(self) -> bool
        decreases self,
    {
        match self {
            REType::Phi {} => true,
            REType::Eps {} => true,
            REType::Char { .. } => true,
            REType::Alt { left, right } => {
                &&& left.is_simplified()
                &&& right.is_simplified()
                &&& !left.spec_is_phi()
                &&& !right.spec_is_phi()
                &&& *left != *right
            },
            REType::Conc { left, right } => {
                &&& left.is_simplified()
                &&& right.is_simplified()
                &&& !left.spec_is_phi()
                &&& !right.spec_is_phi()
                &&& *left != (REType::Eps {})
                &&& *right != (REType::Eps {})
            },
            REType::Star { val } => {
                &&& val.is_simplified()
                &&& !val.spec_is_phi()
                &&& !(*val is Star)
            },
        }
    }

    /// The parenthesized infix rendering of the expression.
    pub open spec fn spec_pretty(self) -> Seq<char>
        decreases self,
    {
        match self {
            REType::Phi {} => "phi"@,
            REType::Eps {} => "eps"@,
            REType::Char { val } => seq![val],
            REType::Alt { left, right } => "("@ + left.spec_pretty() + "|"@ + right.spec_pretty()
                + ")"@,
            REType::Conc { left, right } => "("@ + left.spec_pretty() + right.spec_pretty() + ")"@,
            REType::Star { val } => val.spec_pretty() + "*"@,
        }
    }

    /// Check whether the expression denotes the empty language.
    pub fn is_phi(&self) -> (r: bool)
        ensures
            r == self.spec_is_phi(),
        decreases *self,
    {
        match self {
            REType::Phi {} => true,
            REType::Alt { left, right } => left.is_phi() && right.is_phi(),
            REType::Conc { left, right } => left.is_phi() || right.is_phi(),
            _ => false,
        }
    }

    /// Structural equality of two expression trees.
    pub fn tree_eq(&self, other: &REType) -> (r: bool)
        ensures
            r == (*self == *other),
        decreases *self,
    {
        match (self, other) {
            (REType::Phi {}, REType::Phi {}) => true,
            (REType::Eps {}, REType::Eps {}) => true,
            (REType::Char { val: a }, REType::Char { val: b }) => a == b,
            (
                REType::Alt { left: la, right: ra },
                REType::Alt { left: lb, right: rb },
            ) => la.tree_eq(lb) && ra.tree_eq(rb),
            (
                REType::Conc { left: la, right: ra },
                REType::Conc { left: lb, right: rb },
            ) => la.tree_eq(lb) && ra.tree_eq(rb),
            (REType::Star { val: a }, REType::Star { val: b }) => a.tree_eq(b),
            _ => false,
        }
    }

    /// Render the expression as a parenthesized infix string: `(A|B)` for
    /// alternation, `(AB)` for concatenation, `A*` for star, and the literal
    /// tokens `phi` and `eps` for the two constant languages.
    pub fn pretty(&self) -> (r: String)
        ensures
            r@ == self.spec_pretty(),
        decreases *self,
    {
        match self {
            REType::Phi {} => String::from_str("phi"),
            REType::Eps {} => String::from_str("eps"),
            REType::Char { val } => {
                let mut s = String::from_str("");
                push_char(&mut s, *val);
                proof {
                    reveal_strlit("");
                    assert(s@ =~= seq![*val]);
                }
                s
            },
            REType::Alt { left, right } => {
                let mut s = String::from_str("(");
                s.append(left.pretty().as_str());
                s.append("|");
                s.append(right.pretty().as_str());
                s.append(")");
                s
            },
            REType::Conc { left, right } => {
                let mut s = String::from_str("(");
                s.append(left.pretty().as_str());
                s.append(right.pretty().as_str());
                s.append(")");
                s
            },
            REType::Star { val } => {
                let mut s = val.pretty();
                s.append("*");
                s
            },
        }
    }

    /// Simplify the expression: rewrite it into a language-equivalent tree
    /// with no empty-language alternatives, no empty-string factors, no
    /// duplicate alternatives, and no directly nested stars.
    pub fn simp(&self) -> (r: REType)
        ensures
            r == self.spec_simp(),
        decreases *self,
    {
        match self {
            REType::Phi {} => REType::Phi {},
            REType::Eps {} => REType::Eps {},
            REType::Char { val } => REType::Char { val: *val },
            REType::Alt { left, right } => {
                let l = left.simp();
                let r = right.simp();
                if l.is_phi() {
                    r
                } else if r.is_phi() {
                    l
                } else if l.tree_eq(&r) {
                    l
                } else {
                    REType::Alt { left: Box::new(l), right: Box::new(r) }
                }
            },
            REType::Conc { left, right } => {
                let l = left.simp();
                let r = right.simp();
                if l.is_phi() || r.is_phi() {
                    REType::Phi {}
                } else if l.tree_eq(&REType::Eps {}) {
                    r
                } else if r.tree_eq(&REType::Eps {}) {
                    l
                } else {
                    REType::Conc { left: Box::new(l), right: Box::new(r) }
                }
            },
            REType::Star { val } => {
                let v = val.simp();
                if v.is_phi() {
                    REType::Eps {}
                } else if matches!(v, REType::Star { .. }) {
                    v
                } else {
                    REType::Star { val: Box::new(v) }
                }
            },
        }
    }
}

/// Simplification does not change whether an expression denotes the empty
/// language.
pub proof fn lemma_simp_preserves_is_phi(t: REType)
    ensures
        t.spec_simp().spec_is_phi() == t.spec_is_phi(),
    decreases t,
{
    match t {
        REType::Alt { left, right } => {
            lemma_simp_preserves_is_phi(*left);
            lemma_simp_preserves_is_phi(*right);
        },
        REType::Conc { left, right } => {
            lemma_simp_preserves_is_phi(*left);
            lemma_simp_preserves_is_phi(*right);
        },
        REType::Star { val } => {
            lemma_simp_preserves_is_phi(*val);
        },
        _ => {},
    }
}

/// The result of simplification has no rule left to apply.
pub proof fn lemma_simp_simplified(t: REType)
    ensures
        t.spec_simp().is_simplified(),
    decreases t,
{
    match t {
        REType::Alt { left, right } => {
            lemma_simp_simplified(*left);
            lemma_simp_simplified(*right);
            lemma_simp_preserves_is_phi(*left);
            lemma_simp_preserves_is_phi(*right);
        },
        REType::Conc { left, right } => {
            lemma_simp_simplified(*left);
            lemma_simp_simplified(*right);
            lemma_simp_preserves_is_phi(*left);
            lemma_simp_preserves_is_phi(*right);
        },
        REType::Star { val } => {
            lemma_simp_simplified(*val);
            lemma_simp_preserves_is_phi(*val);
        },
        _ => {},
    }
}

/// An expression with no rule left to apply is a fixed point of
/// simplification.
pub proof fn lemma_simplified_fixed(t: REType)
    requires
        t.is_simplified(),
    ensures
        t.spec_simp() == t,
    decreases t,
{
    match t {
        REType::Alt { left, right } => {
            lemma_simplified_fixed(*left);
            lemma_simplified_fixed(*right);
        },
        REType::Conc { left, right } => {
            lemma_simplified_fixed(*left);
            lemma_simplified_fixed(*right);
        },
        REType::Star { val } => {
            lemma_simplified_fixed(*val);
        },
        _ => {},
    }
}

/// Simplification is idempotent: simplifying a second time changes nothing.
pub proof fn lemma_simp_idempotent(t: REType)
    ensures
        t.spec_simp().spec_simp() == t.spec_simp(),
{
    lemma_simp_simplified(t);
    lemma_simplified_fixed(t.spec_simp());
}

} // verus!
