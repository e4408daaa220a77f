//! The term model: the recursive data type for lambda terms, structural
//! equality, and the canonical textual rendering rule.

use vstd::prelude::*;

verus! {

/// Mathematical model of a lambda term. A variable identifier is modelled as
/// its sequence of characters; the tree structure mirrors [`LambdaTerm`].
pub enum Term {
    Var { id: Seq<char> },
    App { left: Box<Term>, right: Box<Term> },
    Abs { id: Seq<char>, body: Box<Term> },
}

/// Number of nodes of a term; used as a termination measure.
pub open spec fn term_size(t: Term) -> nat
    decreases t,
{
    match t {
        Term::Var { .. } => 1,
        Term::App { left, right } => 1 + term_size(*left) + term_size(*right),
        Term::Abs { id: _, body } => 1 + term_size(*body),
    }
}

/// A lambda term: a variable, an application or an abstraction.
#[derive(Debug, PartialEq, Eq)]
pub enum LambdaTerm {
    Variable(Box<Variable>),
    Application(Box<Application>),
    Abstraction(Box<Abstraction>),
}

/// A bound or free variable; its identity is its textual id.
#[derive(Debug, PartialEq, Eq, Hash)]
pub struct Variable {
    pub id: String,
}

/// A term applied to another term.
#[derive(Debug, PartialEq, Eq)]
pub struct Application {
    pub term1: LambdaTerm,
    pub term2: LambdaTerm,
}

/// An abstraction binds `bound` within `body`.
#[derive(Debug, PartialEq, Eq)]
pub struct Abstraction {
    pub bound: Variable,
    pub body: LambdaTerm,
}

impl View for Variable {
    type V = Seq<char>;

    open spec fn view(&self) -> Seq<char> {
        self.id@
    }
}

impl View for LambdaTerm {
    type V = Term;

    open spec fn view(&self) -> Term
        decreases self,
    {
        match self {
            LambdaTerm::Variable(v) => Term::Var { id: v.id@ },
            LambdaTerm::Application(a) => Term::App {
                left: Box::new(a.term1@),
                right: Box::new(a.term2@),
            },
            LambdaTerm::Abstraction(a) => Term::Abs {
                id: a.bound.id@,
                body: Box::new(a.body@),
            },
        }
    }
}

impl View for Application {
    type V = Term;

    open spec fn view(&self) -> Term {
        Term::App { left: Box::new(self.term1@), right: Box::new(self.term2@) }
    }
}

impl View for Abstraction {
    type V = Term;

    open spec fn view(&self) -> Term {
        Term::Abs { id: self.bound.id@, body: Box::new(self.body@) }
    }
}

impl Clone for Variable {
    /// Clones preserve the identifier.
    fn clone(&self) -> (r: Self)
        ensures
            r@ == self@,
    {
        Variable { id: self.id.clone() }
    }
}

impl Clone for LambdaTerm {
    /// Clones are structurally equal to the original.
    fn clone(&self) -> (r: Self)
        ensures
            r@ == self@,
        decreases term_size(self@),
    {
        match self {
            LambdaTerm::Variable(v) => LambdaTerm::Variable(Box::new((**v).clone())),
            LambdaTerm::Application(a) => LambdaTerm::Application(Box::new(Application {
                term1: a.term1.clone(),
                term2: a.term2.clone(),
            })),
            LambdaTerm::Abstraction(a) => LambdaTerm::Abstraction(Box::new(Abstraction {
                bound: a.bound.clone(),
                body: a.body.clone(),
            })),
        }
    }
}

impl Clone for Application {
    /// Clones are structurally equal to the original.
    fn clone(&self) -> (r: Self)
        ensures
            r@ == self@,
    {
        Application { term1: self.term1.clone(), term2: self.term2.clone() }
    }
}

impl Clone for Abstraction {
    /// Clones are structurally equal to the original.
    fn clone(&self) -> (r: Self)
        ensures
            r@ == self@,
    {
        Abstraction { bound: self.bound.clone(), body: self.body.clone() }
    }
}

/// The canonical textual form of a term:
/// - a variable renders as its id;
/// - an abstraction renders as `λ<bound>.<body>`;
/// - an application renders its operands separated by a single space,
///   wrapping the left operand in parentheses when it is an abstraction and
///   the right operand in parentheses when it is an application.
pub open spec fn render_term(t: Term) -> Seq<char>
    decreases t,
{
    match t {
        Term::Var { id } => id,
        Term::App { left, right } => {
            let l = if *left is Abs {
                seq!['('] + render_term(*left) + seq![')']
            } else {
                render_term(*left)
            };
            let r = if *right is App {
                seq!['('] + render_term(*right) + seq![')']
            } else {
                render_term(*right)
            };
            l + seq![' '] + r
        }
        Term::Abs { id, body } => seq!['λ'] + id + seq!['.'] + render_term(*body),
    }
}

impl LambdaTerm {
    /// Renders the term in its canonical textual form.
    pub fn render(&self) -> (s: String)
        ensures
            s@ == render_term(self@),
        decreases term_size(self@), 1int,
    {
        match self {
            LambdaTerm::Variable(v) => v.render(),
            LambdaTerm::Application(a) => a.render(),
            LambdaTerm::Abstraction(a) => a.render(),
        }
    }
}

impl Variable {
    /// Renders the variable as its id.
    pub fn render(&self) -> (s: String)
        ensures
            s@ == self.id@,
    {
        self.id.clone()
    }
}

impl Application {
    /// Renders the application, parenthesizing an abstraction on the left
    /// and an application on the right.
    pub fn render(&self) -> (s: String)
        ensures
            s@ == render_term(self@),
        decreases term_size(self@), 0int,
    {
        let t1 = self.term1.render();
        let t2 = self.term2.render();
        let wrap1 = match &self.term1 {
            LambdaTerm::Abstraction(_) => true,
            _ => false,
        };
        let wrap2 = match &self.term2 {
            LambdaTerm::Application(_) => true,
            _ => false,
        };
        let mut s = String::new();
        if wrap1 {
            s.append("(");
            s.append(t1.as_str());
            s.append(")");
        } else {
            s.append(t1.as_str());
        }
        s.append(" ");
        if wrap2 {
            s.append("(");
            s.append(t2.as_str());
            s.append(")");
        } else {
            s.append(t2.as_str());
        }
        proof {
            reveal_strlit("(");
            reveal_strlit(")");
            reveal_strlit(" ");
            assert(s@ =~= render_term(self@));
        }
        s
    }
}

impl Abstraction {
    /// Renders the abstraction as `λ<bound>.<body>`.
    pub fn render(&self) -> (s: String)
        ensures
            s@ == render_term(self@),
        decreases term_size(self@), 0int,
    {
        let b = self.body.render();
        let mut s = String::new();
        s.append("λ");
        s.append(self.bound.id.as_str());
        s.append(".");
        s.append(b.as_str());
        proof {
            reveal_strlit("λ");
            reveal_strlit(".");
            assert(s@ =~= render_term(self@));
        }
        s
    }
}

/// Structural equality of two terms: same shape, and recursively equal
/// components, variables comparing by id. This is not alpha-equivalence.
pub fn term_eq(a: &LambdaTerm, b: &LambdaTerm) -> (r: bool)
    ensures
        r == (a@ == b@),
    decreases term_size(a@),
{
    match (a, b) {
        (LambdaTerm::Variable(x), LambdaTerm::Variable(y)) => x.id == y.id,
        (LambdaTerm::Application(x), LambdaTerm::Application(y)) => {
            term_eq(&x.term1, &y.term1) && term_eq(&x.term2, &y.term2)
        }
        (LambdaTerm::Abstraction(x), LambdaTerm::Abstraction(y)) => {
            x.bound.id == y.bound.id && term_eq(&x.body, &y.body)
        }
        _ => false,
    }
}

} // verus!
