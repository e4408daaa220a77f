//! The substitution engine and the single-step reduction/expansion engine.

use vstd::prelude::*;

use crate::ast::{Abstraction, Application, LambdaTerm, Term, Variable, term_size};

verus! {

/// Mathematical model of an evaluation context: whether free variables may be
/// expanded, and the definitions they expand to, keyed by identifier.
pub struct Context {
    pub expand: bool,
    pub table: Map<Seq<char>, Term>,
}

/// Capture-sensitive substitution: replaces every unshadowed free occurrence
/// of the variable `x` in `t` with `r`. An abstraction whose own bound
/// variable is `x` shadows it, so substitution does not descend into its
/// body. This substitution is deliberately not capture-avoiding: a free
/// variable of `r` that an abstraction in `t` happens to bind is captured.
pub open spec fn subst(t: Term, x: Seq<char>, r: Term) -> Term
    decreases t,
{
    match t {
        Term::Var { id } => if id == x {
            r
        } else {
            t
        },
        Term::App { left, right } => Term::App {
            left: Box::new(subst(*left, x, r)),
            right: Box::new(subst(*right, x, r)),
        },
        Term::Abs { id, body } => if id == x {
            t
        } else {
            Term::Abs { id, body: Box::new(subst(*body, x, r)) }
        },
    }
}

/// Whether descending the left edge of `t` bottoms out at a term the step
/// engine can act on: an abstraction (a redex) or a variable the context
/// expands.
pub open spec fn head_active(t: Term, c: Context) -> bool
    decreases t,
{
    match t {
        Term::Abs { .. } => true,
        Term::Var { id } => c.expand && c.table.contains_key(id),
        Term::App { left, .. } => head_active(*left, c),
    }
}

/// One step of an application `left right`, following the left spine first:
/// - if the left edge bottoms out at an abstraction, the innermost
///   application on that edge is beta-reduced and the result spliced back;
/// - if it bottoms out at a variable the context expands, that variable is
///   replaced by its definition in place;
/// - otherwise one step is attempted on `right`, leaving `left` untouched.
pub open spec fn step_app(left: Term, right: Term, c: Context) -> Term
    decreases term_size(left) + term_size(right), 0int,
{
    if head_active(left, c) {
        match left {
            Term::App { left: ll, right: lr } => Term::App {
                left: Box::new(step_app(*ll, *lr, c)),
                right: Box::new(right),
            },
            Term::Abs { id, body } => subst(*body, id, right),
            Term::Var { id } => Term::App { left: Box::new(c.table[id]), right: Box::new(right) },
        }
    } else {
        Term::App { left: Box::new(left), right: Box::new(step(right, c)) }
    }
}

/// One reduction/expansion step of `t`:
/// - an application advances per [`step_app`];
/// - an abstraction attempts one step on its body;
/// - a variable the context expands is replaced by its definition;
/// - anything else is returned unchanged.
pub open spec fn step(t: Term, c: Context) -> Term
    decreases term_size(t), 1int,
{
    match t {
        Term::App { left, right } => step_app(*left, *right, c),
        Term::Abs { id, body } => Term::Abs { id, body: Box::new(step(*body, c)) },
        Term::Var { id } => if c.expand && c.table.contains_key(id) {
            c.table[id]
        } else {
            t
        },
    }
}

/// Whether the variable `x` occurs free in `t`: at some position not under
/// an abstraction binding `x`.
pub open spec fn free_in(t: Term, x: Seq<char>) -> bool
    decreases t,
{
    match t {
        Term::Var { id } => id == x,
        Term::App { left, right } => free_in(*left, x) || free_in(*right, x),
        Term::Abs { id, body } => id != x && free_in(*body, x),
    }
}

/// Whether some abstraction within `t` (including `t` itself) binds `x`,
/// that is, whether `x` is shadowed anywhere in `t`.
pub open spec fn binds(t: Term, x: Seq<char>) -> bool
    decreases t,
{
    match t {
        Term::Var { .. } => false,
        Term::App { left, right } => binds(*left, x) || binds(*right, x),
        Term::Abs { id, body } => id == x || binds(*body, x),
    }
}

/// Substitution correctness in the non-capturing cases: for a variable `x`
/// not shadowed anywhere in `t`, substituting `r` for `x` removes all free
/// occurrences of `x`, provided `r` itself does not bring `x` back free.
pub proof fn lemma_subst_removes_variable(t: Term, x: Seq<char>, r: Term)
    requires
        !binds(t, x),
        !free_in(r, x),
    ensures
        !free_in(subst(t, x, r), x),
    decreases t,
{
    match t {
        Term::Var { .. } => {}
        Term::App { left, right } => {
            lemma_subst_removes_variable(*left, x, r);
            lemma_subst_removes_variable(*right, x, r);
        }
        Term::Abs { id: _, body } => {
            lemma_subst_removes_variable(*body, x, r);
        }
    }
}

/// Substitution correctness in the non-capturing cases: every free variable
/// of `t` other than `x` is still free after substituting for `x`.
pub proof fn lemma_subst_preserves_other_free_vars(t: Term, x: Seq<char>, r: Term, y: Seq<char>)
    requires
        y != x,
        free_in(t, y),
    ensures
        free_in(subst(t, x, r), y),
    decreases t,
{
    match t {
        Term::Var { .. } => {}
        Term::App { left, right } => {
            if free_in(*left, y) {
                lemma_subst_preserves_other_free_vars(*left, x, r, y);
            } else {
                lemma_subst_preserves_other_free_vars(*right, x, r, y);
            }
        }
        Term::Abs { id, body } => {
            if id != x {
                lemma_subst_preserves_other_free_vars(*body, x, r, y);
            }
        }
    }
}

/// Shadowing: substituting for `x` into an abstraction that itself binds `x`
/// leaves the abstraction completely unchanged, whatever the replacement.
pub proof fn lemma_subst_shadowed(id: Seq<char>, body: Term, r: Term)
    ensures
        subst((Term::Abs { id, body: Box::new(body) }), id, r) == (Term::Abs {
            id,
            body: Box::new(body),
        }),
{
}

/// Whether no reduction or expansion step applies anywhere in `t` that the
/// engine's traversal order would perform.
pub open spec fn normal_form(t: Term, c: Context) -> bool
    decreases t,
{
    match t {
        Term::Var { id } => !(c.expand && c.table.contains_key(id)),
        Term::Abs { id: _, body } => normal_form(*body, c),
        Term::App { left, right } => !head_active(*left, c) && normal_form(*left, c)
            && normal_form(*right, c),
    }
}

/// No-op on normal form: a step of a term in normal form — in particular an
/// abstraction over a normal body, or a bare variable the context does not
/// expand — returns the term unchanged.
pub proof fn lemma_step_no_op_on_normal_form(t: Term, c: Context)
    requires
        normal_form(t, c),
    ensures
        step(t, c) == t,
    decreases t,
{
    match t {
        Term::Var { .. } => {
            assert(step(t, c) == t);
        }
        Term::Abs { id, body } => {
            lemma_step_no_op_on_normal_form(*body, c);
            assert(step(t, c) == (Term::Abs { id, body: Box::new(step(*body, c)) }));
            assert(step(t, c) == t);
        }
        Term::App { left, right } => {
            lemma_step_no_op_on_normal_form(*right, c);
            assert(step(t, c) == step_app(*left, *right, c));
            assert(step_app(*left, *right, c) == (Term::App {
                left: left,
                right: Box::new(step(*right, c)),
            }));
            assert(step(t, c) == t);
        }
    }
}

/// A read-only mapping from variable ids to defining terms; a later
/// definition of the same id replaces an earlier one.
pub struct SymbolTable {
    entries: Vec<(Variable, LambdaTerm)>,
}

/// The mapping a sequence of definitions denotes: each definition is added
/// in order, so a later definition of the same id wins.
pub open spec fn table_model(entries: Seq<(Variable, LambdaTerm)>) -> Map<Seq<char>, Term>
    decreases entries.len(),
{
    if entries.len() == 0 {
        Map::empty()
    } else {
        table_model(entries.drop_last()).insert(entries.last().0@, entries.last().1@)
    }
}

impl View for SymbolTable {
    type V = Map<Seq<char>, Term>;

    closed spec fn view(&self) -> Map<Seq<char>, Term> {
        table_model(self.entries@)
    }
}

proof fn lemma_table_model_last_match(
    entries: Seq<(Variable, LambdaTerm)>,
    i: int,
    k: Seq<char>,
)
    requires
        0 <= i < entries.len(),
        entries[i].0@ == k,
        forall|j: int| i < j < entries.len() ==> (#[trigger] entries[j].0)@ != k,
    ensures
        table_model(entries).contains_key(k),
        table_model(entries)[k] == entries[i].1@,
    decreases entries.len(),
{
    if i == entries.len() - 1 {
    } else {
        assert(entries.drop_last()[i] == entries[i]);
        lemma_table_model_last_match(entries.drop_last(), i, k);
    }
}

proof fn lemma_table_model_no_match(entries: Seq<(Variable, LambdaTerm)>, k: Seq<char>)
    requires
        forall|j: int| 0 <= j < entries.len() ==> (#[trigger] entries[j].0)@ != k,
    ensures
        !table_model(entries).contains_key(k),
    decreases entries.len(),
{
    if entries.len() > 0 {
        lemma_table_model_no_match(entries.drop_last(), k);
    }
}

impl SymbolTable {
    /// An empty symbol table.
    pub fn new() -> (r: SymbolTable)
        ensures
            r@ == Map::<Seq<char>, Term>::empty(),
    {
        SymbolTable { entries: Vec::new() }
    }

    /// Adds a definition; a definition of an already-present id replaces it.
    pub fn insert(&mut self, var: Variable, term: LambdaTerm)
        ensures
            final(self)@ == old(self)@.insert(var@, term@),
    {
        let ghost old_entries = self.entries@;
        self.entries.push((var, term));
        proof {
            assert(self.entries@.drop_last() =~= old_entries);
        }
    }

    /// Looks an id up; returns the defining term of the latest definition of
    /// that id, or `None` when the id has no definition.
    pub fn get(&self, var: &Variable) -> (r: Option<&LambdaTerm>)
        ensures
            match r {
                Some(t) => self@.contains_key(var@) && t@ == self@[var@],
                None => !self@.contains_key(var@),
            },
    {
        let n = self.entries.len();
        let mut i = n;
        while i > 0
            invariant
                i <= n,
                n == self.entries.len(),
                forall|j: int| i <= j < n ==> (#[trigger] self.entries@[j].0)@ != var@,
            decreases i,
        {
            i = i - 1;
            if self.entries[i].0.id == var.id {
                proof {
                    lemma_table_model_last_match(self.entries@, i as int, var@);
                }
                return Some(&self.entries[i].1);
            }
        }
        proof {
            lemma_table_model_no_match(self.entries@, var@);
        }
        None
    }
}

/// An immutable bundle of the expansion switch and the symbol table, passed
/// by reference into every step.
pub struct EvalContext {
    pub should_expand: bool,
    /// The symbol table contains definitions. Free variables are looked up
    /// in this table for replacement; we call this process "expansion".
    pub symbol_table: SymbolTable,
}

impl View for EvalContext {
    type V = Context;

    open spec fn view(&self) -> Context {
        Context { expand: self.should_expand, table: self.symbol_table@ }
    }
}

/// Replaces every unshadowed free occurrence of the variable `bound` in
/// `term` with a fresh copy of `replace`; see [`subst`].
pub fn replace_bound(term: LambdaTerm, bound: &Variable, replace: &LambdaTerm) -> (r: LambdaTerm)
    ensures
        r@ == subst(term@, bound@, replace@),
    decreases term_size(term@),
{
    match term {
        LambdaTerm::Variable(v) => {
            if v.id == bound.id {
                replace.clone()
            } else {
                LambdaTerm::Variable(v)
            }
        }
        LambdaTerm::Application(app) => {
            let Application { term1, term2 } = *app;
            LambdaTerm::Application(Box::new(Application {
                term1: replace_bound(term1, bound, replace),
                term2: replace_bound(term2, bound, replace),
            }))
        }
        LambdaTerm::Abstraction(ab) => {
            if ab.bound.id == bound.id {
                LambdaTerm::Abstraction(ab)
            } else {
                let Abstraction { bound: own_bound, body } = *ab;
                LambdaTerm::Abstraction(Box::new(Abstraction {
                    bound: own_bound,
                    body: replace_bound(body, bound, replace),
                }))
            }
        }
    }
}

/// Whether the left edge of `term` bottoms out at an abstraction or at a
/// variable the context expands; see [`head_active`].
fn head_is_active(term: &LambdaTerm, context: &EvalContext) -> (b: bool)
    ensures
        b == head_active(term@, context@),
    decreases term_size(term@),
{
    match term {
        LambdaTerm::Abstraction(_) => true,
        LambdaTerm::Variable(v) => {
            context.should_expand && context.symbol_table.get(v).is_some()
        }
        LambdaTerm::Application(app) => head_is_active(&app.term1, context),
    }
}

/// Advances the application `term1 term2` by one step; see [`step_app`].
/// The left spine is reduced or expanded first; only when nothing on the
/// left edge can act is one step attempted on `term2`.
pub fn eval_application(app: Application, context: &EvalContext) -> (r: LambdaTerm)
    ensures
        r@ == step_app(app.term1@, app.term2@, context@),
    decreases term_size(app.term1@) + term_size(app.term2@), 0int,
{
    let Application { term1, term2 } = app;
    match term1 {
        LambdaTerm::Application(inner) => {
            if head_is_active(&inner.term1, context) {
                LambdaTerm::Application(Box::new(Application {
                    term1: eval_application(*inner, context),
                    term2,
                }))
            } else {
                LambdaTerm::Application(Box::new(Application {
                    term1: LambdaTerm::Application(inner),
                    term2: eval_step(term2, context),
                }))
            }
        }
        LambdaTerm::Abstraction(ab) => {
            let Abstraction { bound, body } = *ab;
            replace_bound(body, &bound, &term2)
        }
        LambdaTerm::Variable(v) => {
            if context.should_expand {
                match context.symbol_table.get(&v) {
                    Some(d) => LambdaTerm::Application(Box::new(Application {
                        term1: d.clone(),
                        term2,
                    })),
                    None => LambdaTerm::Application(Box::new(Application {
                        term1: LambdaTerm::Variable(v),
                        term2: eval_step(term2, context),
                    })),
                }
            } else {
                LambdaTerm::Application(Box::new(Application {
                    term1: LambdaTerm::Variable(v),
                    term2: eval_step(term2, context),
                }))
            }
        }
    }
}

/// Moves evaluation forward by a single step; see [`step`]. Every term has a
/// well-defined next state, possibly itself: a term in normal form is
/// returned unchanged, and no attempt is made to detect divergence.
pub fn eval_step(term: LambdaTerm, context: &EvalContext) -> (r: LambdaTerm)
    ensures
        r@ == step(term@, context@),
    decreases term_size(term@), 1int,
{
    match term {
        LambdaTerm::Application(app) => eval_application(*app, context),
        LambdaTerm::Abstraction(ab) => {
            let Abstraction { bound, body } = *ab;
            LambdaTerm::Abstraction(Box::new(Abstraction {
                bound,
                body: eval_step(body, context),
            }))
        }
        LambdaTerm::Variable(v) => {
            if context.should_expand {
                match context.symbol_table.get(&v) {
                    Some(def) => def.clone(),
                    None => LambdaTerm::Variable(v),
                }
            } else {
                LambdaTerm::Variable(v)
            }
        }
    }
}

} // verus!
