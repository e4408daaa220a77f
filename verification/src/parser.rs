//! The textual grammar: a recursive-descent parser for terms and scripts.
//!
//! A variable id is a maximal non-empty run of characters other than
//! whitespace, `λ`, `.`, `=`, `(` and `)`. Application is left-associative
//! with a single space between operands; an abstraction body extends as far
//! right as possible; parentheses group. A script is a sequence of
//! declarations `name = term`, optionally followed by one evaluation term.

use vstd::prelude::*;
use vstd::string::StrSliceExecFns;

use crate::ast::{render_term, term_size, Abstraction, Application, LambdaTerm, Term, Variable};
use crate::eval::SymbolTable;

verus! {

/// Whether `ch` may appear in a variable id.
pub open spec fn is_id_char(ch: char) -> bool {
    ch != '\t' && ch != '\n' && ch != ' ' && ch != 'λ' && ch != '.' && ch != '=' && ch != '('
        && ch != ')'
}

/// Whether `ch` is whitespace between declarations.
pub open spec fn is_space_char(ch: char) -> bool {
    ch == ' ' || ch == '\t' || ch == '\r' || ch == '\n'
}

/// The end of the run of id characters starting at `i`.
pub open spec fn scan_id_end(s: Seq<char>, i: int) -> int
    decreases s.len() - i,
{
    if i < s.len() && is_id_char(s[i]) {
        scan_id_end(s, i + 1)
    } else {
        i
    }
}

/// The end of the run of whitespace starting at `i`.
pub open spec fn skip_ws(s: Seq<char>, i: int) -> int
    decreases s.len() - i,
{
    if i < s.len() && is_space_char(s[i]) {
        skip_ws(s, i + 1)
    } else {
        i
    }
}

/// Parses a variable id at `i`: the maximal non-empty run of id characters.
pub open spec fn parse_var(s: Seq<char>, i: int) -> Option<(Seq<char>, int)> {
    let j = scan_id_end(s, i);
    if j > i {
        Some((s.subrange(i, j), j))
    } else {
        None
    }
}

/// Parses a term at `i`: a left-associative application of one or more
/// operands separated by single spaces.
pub open spec fn parse_term_at(s: Seq<char>, i: int) -> Option<(Term, int)>
    decreases s.len() - i, 3int,
{
    match parse_abs_at(s, i) {
        Some((t, j)) => if i <= j && j <= s.len() {
            Some(parse_app_rest(s, j, t))
        } else {
            None
        },
        None => None,
    }
}

/// Folds further operands onto `acc`, each preceded by a single space, for
/// as long as one parses.
pub open spec fn parse_app_rest(s: Seq<char>, i: int, acc: Term) -> (Term, int)
    decreases s.len() - i, 2int,
{
    if i < s.len() && s[i] == ' ' {
        match parse_abs_at(s, i + 1) {
            Some((t, j)) => if i < j && j <= s.len() {
                parse_app_rest(s, j, Term::App { left: Box::new(acc), right: Box::new(t) })
            } else {
                (acc, i)
            },
            None => (acc, i),
        }
    } else {
        (acc, i)
    }
}

/// Parses an operand at `i`: an abstraction `λ<id>.<body>`, whose body is
/// parsed greedily, or an atom.
pub open spec fn parse_abs_at(s: Seq<char>, i: int) -> Option<(Term, int)>
    decreases s.len() - i, 1int,
{
    if i < s.len() && s[i] == 'λ' {
        match parse_var(s, i + 1) {
            Some((id, j)) => if j < s.len() && s[j] == '.' && i <= j {
                match parse_term_at(s, j + 1) {
                    Some((body, k)) => Some((Term::Abs { id, body: Box::new(body) }, k)),
                    None => None,
                }
            } else {
                None
            },
            None => None,
        }
    } else {
        parse_atom_at(s, i)
    }
}

/// Parses an atom at `i`: a variable, or a parenthesized term.
pub open spec fn parse_atom_at(s: Seq<char>, i: int) -> Option<(Term, int)>
    decreases s.len() - i, 0int,
{
    match parse_var(s, i) {
        Some((id, j)) => Some((Term::Var { id }, j)),
        None => if i < s.len() && s[i] == '(' {
            match parse_term_at(s, i + 1) {
                Some((t, j)) => if j < s.len() && s[j] == ')' {
                    Some((t, j + 1))
                } else {
                    None
                },
                None => None,
            }
        } else {
            None
        },
    }
}

/// Parses one declaration `name = term` at `i`, whitespace allowed around
/// each part and consumed after it.
pub open spec fn parse_decl_at(s: Seq<char>, i: int) -> Option<((Seq<char>, Term), int)> {
    let w = skip_ws(s, i);
    match parse_var(s, w) {
        Some((id, j)) => {
            let w2 = skip_ws(s, j);
            if w2 < s.len() && s[w2] == '=' {
                match parse_term_at(s, skip_ws(s, w2 + 1)) {
                    Some((t, k)) => Some(((id, t), skip_ws(s, k))),
                    None => None,
                }
            } else {
                None
            }
        }
        None => None,
    }
}

/// Parses declarations at `i` for as long as one parses, in order.
pub open spec fn parse_decls_at(s: Seq<char>, i: int) -> (Seq<(Seq<char>, Term)>, int)
    decreases s.len() - i,
{
    match parse_decl_at(s, i) {
        Some((d, e)) => if i < e && e <= s.len() {
            let rest = parse_decls_at(s, e);
            (seq![d] + rest.0, rest.1)
        } else {
            (seq![d], e)
        },
        None => (Seq::empty(), i),
    }
}

/// The mapping a sequence of declarations denotes: added in order, so a
/// later declaration of the same id wins.
pub open spec fn decls_map(ds: Seq<(Seq<char>, Term)>) -> Map<Seq<char>, Term>
    decreases ds.len(),
{
    if ds.len() == 0 {
        Map::empty()
    } else {
        decls_map(ds.drop_last()).insert(ds.last().0, ds.last().1)
    }
}

/// Parses a whole script: declarations, an optional evaluation term, then
/// whitespace up to the end of the input; `None` when that fails.
pub open spec fn parse_script_form(s: Seq<char>) -> Option<(Seq<(Seq<char>, Term)>, Option<Term>)> {
    let ds = parse_decls_at(s, 0);
    match parse_term_at(s, ds.1) {
        Some((t, j)) => if skip_ws(s, j) == s.len() {
            Some((ds.0, Some(t)))
        } else {
            None
        },
        None => if skip_ws(s, ds.1) == s.len() {
            Some((ds.0, None))
        } else {
            None
        },
    }
}

/// Whether `id` is a valid variable id for the grammar: non-empty and made
/// of id characters only.
pub open spec fn wf_id(id: Seq<char>) -> bool {
    id.len() > 0 && (forall|k: int| 0 <= k < id.len() ==> is_id_char(#[trigger] id[k]))
}

/// Whether every variable id in `t` is valid for the grammar.
pub open spec fn wf_ids(t: Term) -> bool
    decreases t,
{
    match t {
        Term::Var { id } => wf_id(id),
        Term::App { left, right } => wf_ids(*left) && wf_ids(*right),
        Term::Abs { id, body } => wf_id(id) && wf_ids(*body),
    }
}

/// Whether the rendering of `t` re-parses unambiguously. `followed` says
/// whether further application operands follow the rendering at the same
/// parenthesis level. The one ambiguous form is a bare abstraction with
/// operands after it: its greedy body would swallow them, so an abstraction
/// is only unambiguous where nothing follows, and operands are checked with
/// the position they are rendered in.
pub open spec fn render_unambiguous(t: Term, followed: bool) -> bool
    decreases t,
{
    match t {
        Term::Var { .. } => true,
        Term::Abs { id: _, body } => !followed && render_unambiguous(*body, false),
        Term::App { left, right } => {
            let l_ok = if *left is Abs {
                render_unambiguous(*left, false)
            } else {
                render_unambiguous(*left, true)
            };
            let r_ok = if *right is App {
                render_unambiguous(*right, false)
            } else {
                render_unambiguous(*right, followed)
            };
            l_ok && r_ok
        }
    }
}

proof fn lemma_render_len(t: Term)
    requires
        wf_ids(t),
    ensures
        render_term(t).len() >= 1,
    decreases t,
{
    match t {
        Term::Var { .. } => {}
        Term::App { left, right } => {
            lemma_render_len(*left);
            lemma_render_len(*right);
        }
        Term::Abs { id: _, body } => {
            lemma_render_len(*body);
        }
    }
}

proof fn lemma_scan_id_run(s: Seq<char>, i: int, j: int)
    requires
        0 <= i <= j <= s.len(),
        forall|k: int| i <= k < j ==> is_id_char(#[trigger] s[k]),
        j == s.len() || !is_id_char(s[j]),
    ensures
        scan_id_end(s, i) == j,
    decreases j - i,
{
    if i < j {
        lemma_scan_id_run(s, i + 1, j);
    }
}

proof fn lemma_parse_var_exact(s: Seq<char>, i: int, id: Seq<char>)
    requires
        wf_id(id),
        0 <= i,
        i + id.len() <= s.len(),
        s.subrange(i, i + id.len() as int) == id,
        i + id.len() == s.len() || !is_id_char(s[i + id.len()]),
    ensures
        parse_var(s, i) == Some((id, i + id.len() as int)),
{
    assert forall|k: int| i <= k < i + id.len() implies is_id_char(#[trigger] s[k]) by {
        assert(s[k] == s.subrange(i, i + id.len() as int)[k - i]);
    }
    lemma_scan_id_run(s, i, i + id.len() as int);
}

proof fn lemma_split_subrange(s: Seq<char>, i: int, j: int, a: Seq<char>, b: Seq<char>)
    requires
        0 <= i <= j <= s.len(),
        s.subrange(i, j) == a + b,
    ensures
        s.subrange(i, i + a.len() as int) == a,
        s.subrange(i + a.len() as int, j) == b,
{
    assert((a + b).len() == j - i);
    assert forall|k: int| 0 <= k < a.len() implies s.subrange(i, i + a.len() as int)[k] == a[k] by {
        assert(s.subrange(i, j)[k] == (a + b)[k]);
    }
    assert(s.subrange(i, i + a.len() as int) =~= a);
    assert forall|k: int| 0 <= k < b.len() implies s.subrange(i + a.len() as int, j)[k] == b[k] by {
        assert(s.subrange(i + a.len() as int, j)[k] == s[i + a.len() + k]);
        assert(s.subrange(i, j)[k + a.len()] == s[i + a.len() + k]);
        assert((a + b)[k + a.len()] == b[k]);
    }
    assert(s.subrange(i + a.len() as int, j) =~= b);
}

proof fn lemma_parse_render_term(t: Term, s: Seq<char>, i: int, j: int)
    requires
        0 <= i <= j <= s.len(),
        wf_ids(t),
        render_unambiguous(t, false),
        s.subrange(i, j) == render_term(t),
        j == s.len() || s[j] == ')',
    ensures
        parse_term_at(s, i) == Some((t, j)),
    decreases term_size(t), 0int,
{
    match t {
        Term::Var { id } => {
            assert(j - i == id.len());
            assert(s[i] == id[0]) by {
                assert(s.subrange(i, j)[0] == s[i]);
            }
            lemma_parse_var_exact(s, i, id);
            assert(parse_abs_at(s, i) == Some((t, j)));
            assert(parse_app_rest(s, j, t) == (t, j));
        }
        Term::Abs { id, body } => {
            lemma_render_len(*body);
            let n = id.len() as int;
            let m = i + 1 + n;
            assert(render_term(t) =~= seq!['λ'] + (id + (seq!['.'] + render_term(*body))));
            lemma_split_subrange(s, i, j, seq!['λ'], id + (seq!['.'] + render_term(*body)));
            assert(s[i] == 'λ') by {
                assert(s.subrange(i, i + 1)[0] == s[i]);
            }
            lemma_split_subrange(s, i + 1, j, id, seq!['.'] + render_term(*body));
            lemma_split_subrange(s, m, j, seq!['.'], render_term(*body));
            assert(s[m] == '.') by {
                assert(s.subrange(m, m + 1)[0] == s[m]);
            }
            lemma_parse_var_exact(s, i + 1, id);
            lemma_parse_render_term(*body, s, m + 1, j);
            assert(parse_abs_at(s, i) == Some((t, j)));
            assert(parse_app_rest(s, j, t) == (t, j));
        }
        Term::App { left, right } => {
            lemma_render_len(*left);
            lemma_render_len(*right);
            let rl = render_term(*left);
            let rr = render_term(*right);
            let wl = if *left is Abs {
                seq!['('] + rl + seq![')']
            } else {
                rl
            };
            let wr = if *right is App {
                seq!['('] + rr + seq![')']
            } else {
                rr
            };
            let sp = i + wl.len() as int;
            assert(render_term(t) =~= wl + (seq![' '] + wr));
            lemma_split_subrange(s, i, j, wl, seq![' '] + wr);
            lemma_split_subrange(s, sp, j, seq![' '], wr);
            assert(s[sp] == ' ') by {
                assert(s.subrange(sp, sp + 1)[0] == s[sp]);
            }
            lemma_parse_operand(*right, s, sp + 1, j);
            if *left is Abs {
                assert(wl =~= seq!['('] + (rl + seq![')']));
                lemma_split_subrange(s, i, sp, seq!['('], rl + seq![')']);
                assert(s[i] == '(') by {
                    assert(s.subrange(i, i + 1)[0] == s[i]);
                }
                lemma_split_subrange(s, i + 1, sp, rl, seq![')']);
                let i1 = i + 1 + rl.len() as int;
                assert(s[i1] == ')') by {
                    assert(s.subrange(i1, sp)[0] == s[i1]);
                }
                lemma_parse_render_term(*left, s, i + 1, i1);
                assert(scan_id_end(s, i) == i);
                assert(parse_var(s, i) is None);
                assert(parse_atom_at(s, i) == Some((*left, sp)));
                assert(parse_abs_at(s, i) == Some((*left, sp)));
                assert(parse_app_rest(s, sp, *left) == parse_app_rest(
                    s,
                    j,
                    Term::App { left: Box::new(*left), right: Box::new(*right) },
                ));
                assert(parse_app_rest(s, j, t) == (t, j));
                assert(parse_term_at(s, i) == Some((t, j)));
            } else {
                lemma_parse_render_spine(*left, s, i, sp);
                let hp = parse_abs_at(s, i)->Some_0;
                assert(parse_app_rest(s, hp.1, hp.0) == parse_app_rest(s, sp, *left));
                assert(parse_app_rest(s, sp, *left) == parse_app_rest(
                    s,
                    j,
                    Term::App { left: Box::new(*left), right: Box::new(*right) },
                ));
                assert(parse_app_rest(s, j, t) == (t, j));
                assert(parse_term_at(s, i) == Some((t, j)));
            }
        }
    }
}

/// The rendering of a non-abstraction `l` standing on the left of an
/// application: parsing the head operand and folding through `l`'s extent
/// accumulates exactly `l`.
proof fn lemma_parse_render_spine(l: Term, s: Seq<char>, i: int, jl: int)
    requires
        0 <= i <= jl <= s.len(),
        !(l is Abs),
        wf_ids(l),
        render_unambiguous(l, true),
        s.subrange(i, jl) == render_term(l),
        jl == s.len() || !is_id_char(s[jl]),
    ensures
        parse_abs_at(s, i) matches Some(hp) && i < hp.1 <= s.len() && parse_app_rest(s, hp.1, hp.0)
            == parse_app_rest(s, jl, l),
    decreases term_size(l), 1int,
{
    match l {
        Term::Var { id } => {
            assert(jl - i == id.len());
            assert(s[i] == id[0]) by {
                assert(s.subrange(i, jl)[0] == s[i]);
            }
            lemma_parse_var_exact(s, i, id);
            assert(parse_abs_at(s, i) == Some((l, jl)));
        }
        Term::App { left, right } => {
            lemma_render_len(*left);
            lemma_render_len(*right);
            let rl = render_term(*left);
            let rr = render_term(*right);
            let wl = if *left is Abs {
                seq!['('] + rl + seq![')']
            } else {
                rl
            };
            let wr = if *right is App {
                seq!['('] + rr + seq![')']
            } else {
                rr
            };
            let sp = i + wl.len() as int;
            assert(render_term(l) =~= wl + (seq![' '] + wr));
            lemma_split_subrange(s, i, jl, wl, seq![' '] + wr);
            lemma_split_subrange(s, sp, jl, seq![' '], wr);
            assert(s[sp] == ' ') by {
                assert(s.subrange(sp, sp + 1)[0] == s[sp]);
            }
            // a bare abstraction cannot stand as an operand followed by more
            // text, and here the whole spine is followed by more text
            if *right is Abs {
                assert(render_unambiguous(*right, true));
                assert(!render_unambiguous(*right, true));
            }
            assert(!(*right is Abs));
            lemma_parse_operand(*right, s, sp + 1, jl);
            if *left is Abs {
                assert(wl =~= seq!['('] + (rl + seq![')']));
                lemma_split_subrange(s, i, sp, seq!['('], rl + seq![')']);
                assert(s[i] == '(') by {
                    assert(s.subrange(i, i + 1)[0] == s[i]);
                }
                lemma_split_subrange(s, i + 1, sp, rl, seq![')']);
                let i1 = i + 1 + rl.len() as int;
                assert(s[i1] == ')') by {
                    assert(s.subrange(i1, sp)[0] == s[i1]);
                }
                lemma_parse_render_term(*left, s, i + 1, i1);
                assert(scan_id_end(s, i) == i);
                assert(parse_var(s, i) is None);
                assert(parse_atom_at(s, i) == Some((*left, sp)));
                assert(parse_abs_at(s, i) == Some((*left, sp)));
                assert(parse_app_rest(s, sp, *left) == parse_app_rest(
                    s,
                    jl,
                    Term::App { left: Box::new(*left), right: Box::new(*right) },
                ));
            } else {
                lemma_parse_render_spine(*left, s, i, sp);
                let hp = parse_abs_at(s, i)->Some_0;
                assert(parse_app_rest(s, hp.1, hp.0) == parse_app_rest(s, sp, *left));
                assert(parse_app_rest(s, sp, *left) == parse_app_rest(
                    s,
                    jl,
                    Term::App { left: Box::new(*left), right: Box::new(*right) },
                ));
            }
        }
        Term::Abs { .. } => {}
    }
}

/// The rendering of an operand `u` on the right of a space: it parses as one
/// operand, wrapped in parentheses exactly when it is an application.
proof fn lemma_parse_operand(u: Term, s: Seq<char>, i: int, j: int)
    requires
        0 <= i <= j <= s.len(),
        wf_ids(u),
        u is App ==> s.subrange(i, j) == seq!['('] + render_term(u) + seq![')']
            && render_unambiguous(u, false),
        !(u is App) ==> s.subrange(i, j) == render_term(u),
        u is Var ==> j == s.len() || !is_id_char(s[j]),
        u is Abs ==> (j == s.len() || s[j] == ')') && render_unambiguous(u, false),
    ensures
        parse_abs_at(s, i) == Some((u, j)),
    decreases term_size(u), 2int,
{
    match u {
        Term::Var { id } => {
            assert(j - i == id.len());
            assert(s[i] == id[0]) by {
                assert(s.subrange(i, j)[0] == s[i]);
            }
            lemma_parse_var_exact(s, i, id);
        }
        Term::Abs { id, body } => {
            lemma_render_len(*body);
            let n = id.len() as int;
            let m = i + 1 + n;
            assert(render_term(u) =~= seq!['λ'] + (id + (seq!['.'] + render_term(*body))));
            lemma_split_subrange(s, i, j, seq!['λ'], id + (seq!['.'] + render_term(*body)));
            assert(s[i] == 'λ') by {
                assert(s.subrange(i, i + 1)[0] == s[i]);
            }
            lemma_split_subrange(s, i + 1, j, id, seq!['.'] + render_term(*body));
            lemma_split_subrange(s, m, j, seq!['.'], render_term(*body));
            assert(s[m] == '.') by {
                assert(s.subrange(m, m + 1)[0] == s[m]);
            }
            lemma_parse_var_exact(s, i + 1, id);
            lemma_parse_render_term(*body, s, m + 1, j);
            assert(parse_abs_at(s, i) == Some((u, j)));
        }
        Term::App { .. } => {
            lemma_render_len(u);
            assert(s.subrange(i, j) =~= seq!['('] + (render_term(u) + seq![')']));
            lemma_split_subrange(s, i, j, seq!['('], render_term(u) + seq![')']);
            assert(s[i] == '(') by {
                assert(s.subrange(i, i + 1)[0] == s[i]);
            }
            lemma_split_subrange(s, i + 1, j, render_term(u), seq![')']);
            let i1 = i + 1 + render_term(u).len() as int;
            assert(s[i1] == ')') by {
                assert(s.subrange(i1, j)[0] == s[i1]);
            }
            lemma_parse_render_term(u, s, i + 1, i1);
            assert(scan_id_end(s, i) == i);
            assert(parse_var(s, i) is None);
            assert(parse_atom_at(s, i) == Some((u, j)));
            assert(parse_abs_at(s, i) == Some((u, j)));
        }
    }
}

/// Round-trip: the canonical rendering of a term re-parses, consuming the
/// whole text, to a structurally equal term. The term's ids must be valid
/// for the grammar, and no bare abstraction may stand where operands follow
/// it — the renderer leaves such an abstraction unparenthesized, and the
/// greedy abstraction body would swallow the operands on re-parsing.
pub proof fn lemma_render_parse_round_trip(t: Term)
    requires
        wf_ids(t),
        render_unambiguous(t, false),
    ensures
        parse_term_at(render_term(t), 0) == Some((t, render_term(t).len() as int)),
{
    let s = render_term(t);
    assert(s.subrange(0, s.len() as int) =~= s);
    lemma_parse_render_term(t, s, 0, s.len() as int);
}

/// A parsed script: a library holds only declarations, a program also holds
/// a term to evaluate.
pub enum Script {
    Library { declarations: SymbolTable },
    Program { declarations: SymbolTable, evaluation_term: LambdaTerm },
}

impl View for Script {
    type V = (Map<Seq<char>, Term>, Option<Term>);

    open spec fn view(&self) -> (Map<Seq<char>, Term>, Option<Term>) {
        match self {
            Script::Library { declarations } => (declarations@, None::<Term>),
            Script::Program { declarations, evaluation_term } => (
                declarations@,
                Some(evaluation_term@),
            ),
        }
    }
}

/// Why an input failed to parse.
#[derive(Debug)]
pub enum ParseError {
    /// A term was parsed but input remained after it.
    RemainingInput(String),
    /// No valid parse at all.
    InvalidInput,
}

impl ParseError {
    /// A human-readable description of the error.
    pub fn message(&self) -> (s: String)
        ensures
            self is InvalidInput ==> s@ == "The input was invalid!"@,
            self matches ParseError::RemainingInput(rem) ==> s@
                == "Finished parsing, but experienced more input:\n```\n"@ + rem@ + ")\n```"@,
    {
        match self {
            ParseError::RemainingInput(rem) => {
                let mut s = String::new();
                s.append("Finished parsing, but experienced more input:\n```\n");
                s.append(rem.as_str());
                s.append(")\n```");
                s
            }
            ParseError::InvalidInput => {
                let mut s = String::new();
                s.append("The input was invalid!");
                s
            }
        }
    }
}

fn char_is_id(c: char) -> (b: bool)
    ensures
        b == is_id_char(c),
{
    c != '\t' && c != '\n' && c != ' ' && c != 'λ' && c != '.' && c != '=' && c != '(' && c != ')'
}

fn char_is_space(c: char) -> (b: bool)
    ensures
        b == is_space_char(c),
{
    c == ' ' || c == '\t' || c == '\r' || c == '\n'
}

fn scan_id_exec(s: &str, len: usize, i: usize) -> (j: usize)
    requires
        len == s@.len(),
        i <= len,
    ensures
        j == scan_id_end(s@, i as int),
        i <= j <= len,
    decreases len - i,
{
    if i < len && char_is_id(s.get_char(i)) {
        scan_id_exec(s, len, i + 1)
    } else {
        i
    }
}

fn skip_ws_exec(s: &str, len: usize, i: usize) -> (j: usize)
    requires
        len == s@.len(),
        i <= len,
    ensures
        j == skip_ws(s@, i as int),
        i <= j <= len,
    decreases len - i,
{
    if i < len && char_is_space(s.get_char(i)) {
        skip_ws_exec(s, len, i + 1)
    } else {
        i
    }
}

fn parse_var_exec(s: &str, len: usize, i: usize) -> (r: Option<(Variable, usize)>)
    requires
        len == s@.len(),
        i <= len,
    ensures
        match r {
            Some((v, j)) => parse_var(s@, i as int) == Some((v@, j as int)) && i < j <= len,
            None => parse_var(s@, i as int) is None,
        },
{
    let j = scan_id_exec(s, len, i);
    if j > i {
        let id = s.substring_char(i, j);
        Some((Variable { id: id.to_owned() }, j))
    } else {
        None
    }
}

fn parse_term_exec(s: &str, len: usize, i: usize) -> (r: Option<(LambdaTerm, usize)>)
    requires
        len == s@.len(),
        i <= len,
    ensures
        match r {
            Some((t, j)) => parse_term_at(s@, i as int) == Some((t@, j as int)) && i < j <= len,
            None => parse_term_at(s@, i as int) is None,
        },
    decreases len - i, 3int,
{
    match parse_abs_exec(s, len, i) {
        Some((t, j)) => {
            let folded = parse_app_rest_exec(s, len, j, t);
            Some(folded)
        }
        None => None,
    }
}

fn parse_app_rest_exec(s: &str, len: usize, i: usize, acc: LambdaTerm) -> (r: (LambdaTerm, usize))
    requires
        len == s@.len(),
        i <= len,
    ensures
        parse_app_rest(s@, i as int, acc@) == (r.0@, r.1 as int),
        i <= r.1 <= len,
    decreases len - i, 2int,
{
    if i < len && s.get_char(i) == ' ' {
        match parse_abs_exec(s, len, i + 1) {
            Some((t, j)) => {
                let acc2 = LambdaTerm::Application(Box::new(Application {
                    term1: acc,
                    term2: t,
                }));
                parse_app_rest_exec(s, len, j, acc2)
            }
            None => (acc, i),
        }
    } else {
        (acc, i)
    }
}

fn parse_abs_exec(s: &str, len: usize, i: usize) -> (r: Option<(LambdaTerm, usize)>)
    requires
        len == s@.len(),
        i <= len,
    ensures
        match r {
            Some((t, j)) => parse_abs_at(s@, i as int) == Some((t@, j as int)) && i < j <= len,
            None => parse_abs_at(s@, i as int) is None,
        },
    decreases len - i, 1int,
{
    if i < len && s.get_char(i) == 'λ' {
        match parse_var_exec(s, len, i + 1) {
            Some((bound, j)) => {
                if j < len && s.get_char(j) == '.' {
                    match parse_term_exec(s, len, j + 1) {
                        Some((body, k)) => Some((
                            LambdaTerm::Abstraction(Box::new(Abstraction { bound, body })),
                            k,
                        )),
                        None => None,
                    }
                } else {
                    None
                }
            }
            None => None,
        }
    } else {
        parse_atom_exec(s, len, i)
    }
}

fn parse_atom_exec(s: &str, len: usize, i: usize) -> (r: Option<(LambdaTerm, usize)>)
    requires
        len == s@.len(),
        i <= len,
    ensures
        match r {
            Some((t, j)) => parse_atom_at(s@, i as int) == Some((t@, j as int)) && i < j <= len,
            None => parse_atom_at(s@, i as int) is None,
        },
    decreases len - i, 0int,
{
    match parse_var_exec(s, len, i) {
        Some((v, j)) => Some((LambdaTerm::Variable(Box::new(v)), j)),
        None => {
            if i < len && s.get_char(i) == '(' {
                match parse_term_exec(s, len, i + 1) {
                    Some((t, j)) => {
                        if j < len && s.get_char(j) == ')' {
                            Some((t, j + 1))
                        } else {
                            None
                        }
                    }
                    None => None,
                }
            } else {
                None
            }
        }
    }
}

/// Parses a single term; the whole input must be consumed. A term followed
/// by trailing input yields `RemainingInput` with that remainder; an input
/// with no valid term yields `InvalidInput`.
pub fn parse(input: &str) -> (r: Result<LambdaTerm, ParseError>)
    ensures
        match r {
            Ok(t) => parse_term_at(input@, 0) == Some((t@, input@.len() as int)),
            Err(e) => match e {
                ParseError::RemainingInput(rem) => parse_term_at(input@, 0) matches Some(p)
                    && p.1 < input@.len() && rem@ == input@.subrange(p.1, input@.len() as int),
                ParseError::InvalidInput => parse_term_at(input@, 0) is None,
            },
        },
{
    let len = input.unicode_len();
    match parse_term_exec(input, len, 0) {
        Some((t, j)) => {
            if j == len {
                Ok(t)
            } else {
                Err(ParseError::RemainingInput(input.substring_char(j, len).to_owned()))
            }
        }
        None => Err(ParseError::InvalidInput),
    }
}

fn parse_decl_exec(s: &str, len: usize, i: usize) -> (r: Option<(Variable, LambdaTerm, usize)>)
    requires
        len == s@.len(),
        i <= len,
    ensures
        match r {
            Some((v, t, e)) => parse_decl_at(s@, i as int) == Some(((v@, t@), e as int)) && i < e
                <= len,
            None => parse_decl_at(s@, i as int) is None,
        },
{
    let w = skip_ws_exec(s, len, i);
    match parse_var_exec(s, len, w) {
        Some((v, j)) => {
            let w2 = skip_ws_exec(s, len, j);
            if w2 < len && s.get_char(w2) == '=' {
                let w3 = skip_ws_exec(s, len, w2 + 1);
                match parse_term_exec(s, len, w3) {
                    Some((t, k)) => {
                        let e = skip_ws_exec(s, len, k);
                        Some((v, t, e))
                    }
                    None => None,
                }
            } else {
                None
            }
        }
        None => None,
    }
}

/// Parses a script: declarations, then an optional evaluation term, then
/// whitespace up to the end of the input. A later declaration of an id
/// replaces an earlier one. Any other input yields `InvalidInput`.
pub fn parse_script(input: &str) -> (r: Result<Script, ParseError>)
    ensures
        match r {
            Ok(sc) => parse_script_form(input@) matches Some(m) && sc@ == (decls_map(m.0), m.1),
            Err(e) => e is InvalidInput && parse_script_form(input@) is None,
        },
{
    let len = input.unicode_len();
    let mut table = SymbolTable::new();
    let mut i: usize = 0;
    let ghost mut ds: Seq<(Seq<char>, Term)> = Seq::empty();
    loop
        invariant
            len == input@.len(),
            i <= len,
            table@ == decls_map(ds),
            parse_decls_at(input@, 0) == (ds + parse_decls_at(input@, i as int).0, parse_decls_at(
                input@,
                i as int,
            ).1),
        ensures
            i <= len,
            len == input@.len(),
            table@ == decls_map(parse_decls_at(input@, 0).0),
            i as int == parse_decls_at(input@, 0).1,
        decreases len - i,
    {
        match parse_decl_exec(input, len, i) {
            Some((v, t, e)) => {
                proof {
                    let d = (v@, t@);
                    let rest = parse_decls_at(input@, e as int);
                    assert(parse_decls_at(input@, i as int) == (seq![d] + rest.0, rest.1));
                    assert(ds + (seq![d] + rest.0) =~= ds.push(d) + rest.0);
                    assert(ds.push(d).drop_last() =~= ds);
                    ds = ds.push(d);
                }
                table.insert(v, t);
                i = e;
            }
            None => {
                proof {
                    assert(parse_decls_at(input@, i as int) == (Seq::<(Seq<char>, Term)>::empty(), i as int));
                    assert(ds + Seq::<(Seq<char>, Term)>::empty() =~= ds);
                }
                break;
            }
        }
    }
    match parse_term_exec(input, len, i) {
        Some((t, j)) => {
            let w = skip_ws_exec(input, len, j);
            if w == len {
                Ok(Script::Program { declarations: table, evaluation_term: t })
            } else {
                Err(ParseError::InvalidInput)
            }
        }
        None => {
            let w = skip_ws_exec(input, len, i);
            if w == len {
                Ok(Script::Library { declarations: table })
            } else {
                Err(ParseError::InvalidInput)
            }
        }
    }
}

} // verus!

