//! Evaluation: reducing an expression tree against a mutable binding
//! environment.
//!
//! An atom evaluates by looking itself up: a bound atom evaluates to the
//! (recursively evaluated) bound value, an unbound atom to itself. A list is
//! scanned left to right; when the current child is an atom naming one of
//! the special forms, that form consumes the following, not-yet-evaluated
//! children according to its arity and its result becomes the result of the
//! whole list. Otherwise the child is evaluated and appended to the output
//! list when evaluation succeeds, or silently dropped when it fails — while
//! a failing operand of a special form fails the whole list. Binding chains
//! may be circular, so lookup depth is bounded by a fuel; the executable
//! evaluator runs with the largest fuel a machine word can hold.

use crate::env::Environment;
use crate::sexp::{
    atom_classify_spec, bool_text, car_spec, cdr_spec, clone_sexp, cons_spec, eq_any_spec, esize,
    essize_from, lat_spec, lemma_essize_elem, lemma_essize_from_next, lemma_essize_mono,
    lemma_seq_view, null_spec, opt_sexp_view, seq_sexp_view, sexp_view, text_is, is_true_spec,
    SExpView, SExpression,
};
use vstd::prelude::*;

verus! {

/// The model of a binding environment: a map from atom text to expression
/// model.
pub type EnvModel = Map<Seq<char>, SExpView>;

/// Whether the expression is the atom named `n`.
pub open spec fn is_name(e: SExpView, n: Seq<char>) -> bool {
    match e {
        SExpView::Atom(s) => s == n,
        SExpView::List(_) => false,
    }
}

/// What the `define` method does once handed evaluated operands: an atom
/// key is bound (overwriting any earlier binding); any other key binds
/// nothing. The evaluator only reaches the bind with an atom key — the
/// `define` form fails on any other evaluated key.
pub open spec fn define_spec(key: SExpView, value: SExpView, env: EnvModel) -> EnvModel {
    match key {
        SExpView::Atom(s) => env.insert(s, value),
        SExpView::List(_) => env,
    }
}

/// The result and final environment of evaluating one expression.
///
/// `fuel` bounds only the depth of binding-chain substitution (an atom
/// bound to an atom bound to ...); it is untouched by structural recursion,
/// so every binding-free evaluation is independent of it.
pub open spec fn eval_spec(e: SExpView, env: EnvModel, fuel: nat) -> (Option<SExpView>, EnvModel)
    decreases fuel, esize(e), 0int,
{
    match e {
        SExpView::Atom(s) => {
            if env.contains_key(s) {
                if fuel == 0 {
                    (None, env)
                } else {
                    eval_spec(env[s], env, (fuel - 1) as nat)
                }
            } else {
                (Some(SExpView::Atom(s)), env)
            }
        },
        SExpView::List(items) => eval_list_spec(items, 0, Seq::empty(), env, fuel),
    }
}

/// The result and final environment of scanning a list's children from
/// position `i`, with `acc` the successfully evaluated children so far.
pub open spec fn eval_list_spec(
    items: Seq<SExpView>,
    i: int,
    acc: Seq<SExpView>,
    env: EnvModel,
    fuel: nat,
) -> (Option<SExpView>, EnvModel)
    decreases fuel, essize_from(items, i), 1int,
    via eval_list_spec_dec
{
    if !(0 <= i < items.len()) {
        (Some(SExpView::List(acc)), env)
    } else {
        let head = items[i];
        if is_name(head, "car"@) {
            if i + 1 >= items.len() {
                (None, env)
            } else {
                let (v, env1) = eval_spec(items[i + 1], env, fuel);
                match v {
                    Some(x) => (car_spec(x), env1),
                    None => (None, env1),
                }
            }
        } else if is_name(head, "cdr"@) {
            if i + 1 >= items.len() {
                (None, env)
            } else {
                let (v, env1) = eval_spec(items[i + 1], env, fuel);
                match v {
                    Some(x) => (cdr_spec(x), env1),
                    None => (None, env1),
                }
            }
        } else if is_name(head, "cons"@) {
            if i + 1 >= items.len() {
                (None, env)
            } else {
                let (v1, env1) = eval_spec(items[i + 1], env, fuel);
                match v1 {
                    Some(x) => if i + 2 >= items.len() {
                        (None, env1)
                    } else {
                        let (v2, env2) = eval_spec(items[i + 2], env1, fuel);
                        match v2 {
                            Some(y) => (cons_spec(x, y), env2),
                            None => (None, env2),
                        }
                    },
                    None => (None, env1),
                }
            }
        } else if is_name(head, "null?"@) {
            if i + 1 >= items.len() {
                (None, env)
            } else {
                let (v, env1) = eval_spec(items[i + 1], env, fuel);
                match v {
                    Some(x) => (Some(null_spec(x)), env1),
                    None => (None, env1),
                }
            }
        } else if is_name(head, "quote"@) || is_name(head, "'"@) {
            if i + 1 >= items.len() {
                (None, env)
            } else {
                (Some(items[i + 1]), env)
            }
        } else if is_name(head, "atom?"@) {
            if i + 1 >= items.len() {
                (None, env)
            } else {
                let (v, env1) = eval_spec(items[i + 1], env, fuel);
                match v {
                    Some(x) => (Some(atom_classify_spec(x)), env1),
                    None => (None, env1),
                }
            }
        } else if is_name(head, "eq?"@) {
            if i + 1 >= items.len() {
                (None, env)
            } else {
                let (v1, env1) = eval_spec(items[i + 1], env, fuel);
                match v1 {
                    Some(x) => if i + 2 >= items.len() {
                        (None, env1)
                    } else {
                        let (v2, env2) = eval_spec(items[i + 2], env1, fuel);
                        match v2 {
                            Some(y) => (
                                Some(SExpView::Atom(bool_text(eq_any_spec(x, y)))),
                                env2,
                            ),
                            None => (None, env2),
                        }
                    },
                    None => (None, env1),
                }
            }
        } else if is_name(head, "lat?"@) {
            if i + 1 >= items.len() {
                (None, env)
            } else {
                let (v, env1) = eval_spec(items[i + 1], env, fuel);
                match v {
                    Some(x) => (Some(lat_spec(x)), env1),
                    None => (None, env1),
                }
            }
        } else if is_name(head, "cond"@) {
            cond_spec(items, i + 1, env, fuel)
        } else if is_name(head, "define"@) {
            if i + 1 >= items.len() {
                (None, env)
            } else {
                let (v1, env1) = eval_spec(items[i + 1], env, fuel);
                match v1 {
                    Some(k) => if i + 2 >= items.len() {
                        (None, env1)
                    } else {
                        let (v2, env2) = eval_spec(items[i + 2], env1, fuel);
                        match v2 {
                            Some(x) => match k {
                                SExpView::Atom(_) => eval_list_spec(
                                    items,
                                    i + 3,
                                    acc,
                                    define_spec(k, x, env2),
                                    fuel,
                                ),
                                SExpView::List(_) => (None, env2),
                            },
                            None => (None, env2),
                        }
                    },
                    None => (None, env1),
                }
            }
        } else {
            let (v, env1) = eval_spec(head, env, fuel);
            match v {
                Some(x) => eval_list_spec(items, i + 1, acc.push(x), env1, fuel),
                None => eval_list_spec(items, i + 1, acc, env1, fuel),
            }
        }
    }
}

#[via_fn]
proof fn eval_list_spec_dec(
    items: Seq<SExpView>,
    i: int,
    acc: Seq<SExpView>,
    env: EnvModel,
    fuel: nat,
) {
    if 0 <= i < items.len() {
        lemma_essize_from_next(items, i);
        lemma_essize_elem(items, i, i);
        if i + 1 < items.len() {
            lemma_essize_elem(items, i, i + 1);
        }
        if i + 2 < items.len() {
            lemma_essize_elem(items, i, i + 2);
        }
        lemma_essize_mono(items, i + 1, i + 3);
    }
}

/// The result and final environment of scanning `cond` clauses from
/// position `i`: each clause must be a list of at least two elements
/// `(test result)` — a malformed clause fails the whole form — and the
/// first clause whose evaluated test is the atom `true` has its result
/// expression evaluated; with no matching clause, the whole form fails.
/// Failing tests are treated as false, but any environment change their
/// evaluation made is kept.
pub open spec fn cond_spec(items: Seq<SExpView>, i: int, env: EnvModel, fuel: nat) -> (
    Option<SExpView>,
    EnvModel,
)
    decreases fuel, essize_from(items, i), 1int,
    via cond_spec_dec
{
    if !(0 <= i < items.len()) {
        (None, env)
    } else {
        match items[i] {
            SExpView::List(cl) => {
                if cl.len() > 1 {
                    let (tv, env1) = eval_spec(cl[0], env, fuel);
                    match tv {
                        Some(t) => if is_true_spec(t) {
                            eval_spec(cl[1], env1, fuel)
                        } else {
                            cond_spec(items, i + 1, env1, fuel)
                        },
                        None => cond_spec(items, i + 1, env1, fuel),
                    }
                } else {
                    (None, env)
                }
            },
            SExpView::Atom(_) => (None, env),
        }
    }
}

#[via_fn]
proof fn cond_spec_dec(items: Seq<SExpView>, i: int, env: EnvModel, fuel: nat) {
    if 0 <= i < items.len() {
        lemma_essize_from_next(items, i);
        lemma_essize_elem(items, i, i);
        match items[i] {
            SExpView::List(cl) => {
                if cl.len() > 1 {
                    lemma_essize_elem(cl, 0, 0);
                    lemma_essize_elem(cl, 0, 1);
                }
            },
            SExpView::Atom(_) => {},
        }
    }
}

/// Evaluation at the fuel the executable evaluator runs with.
pub open spec fn eval_full(e: SExpView, env: EnvModel) -> (Option<SExpView>, EnvModel) {
    eval_spec(e, env, u64::MAX as nat)
}

impl SExpression {
    /// Reduces the expression against `env`: `None` is evaluation failure.
    /// `define` is the only operation that changes `env`.
    pub fn eval(&self, env: &mut Environment) -> (r: Option<SExpression>)
        ensures
            (opt_sexp_view(r), final(env)@) == eval_full(self@, old(env)@),
    {
        self.eval_fueled(env, u64::MAX)
    }

    /// Evaluation with an explicit bound on binding-chain substitution
    /// depth.
    fn eval_fueled(&self, env: &mut Environment, fuel: u64) -> (r: Option<SExpression>)
        ensures
            (opt_sexp_view(r), final(env)@) == eval_spec(self@, old(env)@, fuel as nat),
        decreases fuel, esize(self@), 0int,
    {
        match self {
            SExpression::Atom(s) => {
                let looked: Option<SExpression> = match env.get(s) {
                    Some(v) => Some(clone_sexp(v)),
                    None => None,
                };
                match looked {
                    Some(v) => {
                        if fuel == 0 {
                            None
                        } else {
                            v.eval_fueled(env, fuel - 1)
                        }
                    },
                    None => Some(SExpression::Atom(s.clone())),
                }
            },
            SExpression::List(items) => {
                proof {
                    lemma_seq_view(items@);
                    assert(seq_sexp_view(Seq::<SExpression>::empty()) =~= Seq::<
                        SExpView,
                    >::empty());
                }
                eval_items(items, 0, Vec::new(), env, fuel)
            },
        }
    }

    /// `cond`: scans `clauses[i..]` for the first clause whose evaluated
    /// test is the atom `true` and evaluates that clause's result; a
    /// malformed clause — one that is not a list of at least two elements —
    /// fails the whole form.
    pub fn cond(&self, clauses: &Vec<SExpression>, i: usize, env: &mut Environment) -> (r: Option<
        SExpression,
    >)
        ensures
            (opt_sexp_view(r), final(env)@) == cond_spec(
                seq_sexp_view(clauses@),
                i as int,
                old(env)@,
                u64::MAX as nat,
            ),
    {
        self.cond_fueled(clauses, i, env, u64::MAX)
    }

    /// `cond` with an explicit substitution-depth bound.
    fn cond_fueled(
        &self,
        clauses: &Vec<SExpression>,
        i: usize,
        env: &mut Environment,
        fuel: u64,
    ) -> (r: Option<SExpression>)
        ensures
            (opt_sexp_view(r), final(env)@) == cond_spec(
                seq_sexp_view(clauses@),
                i as int,
                old(env)@,
                fuel as nat,
            ),
        decreases fuel, essize_from(seq_sexp_view(clauses@), i as int), 1int,
    {
        let ghost cv = seq_sexp_view(clauses@);
        proof {
            lemma_seq_view(clauses@);
        }
        if i >= clauses.len() {
            return None;
        }
        proof {
            lemma_essize_from_next(cv, i as int);
            lemma_essize_elem(cv, i as int, i as int);
        }
        match &clauses[i] {
            SExpression::List(cl) => {
                let ghost clv = seq_sexp_view(cl@);
                proof {
                    lemma_seq_view(cl@);
                }
                if cl.len() > 1 {
                    proof {
                        lemma_essize_elem(clv, 0, 0);
                        lemma_essize_elem(clv, 0, 1);
                    }
                    let tv = cl[0].eval_fueled(env, fuel);
                    match tv {
                        Some(t) => {
                            if t.is_true() {
                                cl[1].eval_fueled(env, fuel)
                            } else {
                                self.cond_fueled(clauses, i + 1, env, fuel)
                            }
                        },
                        None => self.cond_fueled(clauses, i + 1, env, fuel),
                    }
                } else {
                    None
                }
            },
            SExpression::Atom(_) => None,
        }
    }

    /// `define`: binds the symbol `self` to `other` in `env`. Contributes
    /// no value to an enclosing list. The evaluator calls this only with an
    /// atom key — the `define` form fails on any other evaluated key — and
    /// with a non-atom key this method binds nothing.
    pub fn define(&self, other: &SExpression, env: &mut Environment)
        ensures
            final(env)@ == define_spec(self@, other@, old(env)@),
    {
        match self {
            SExpression::Atom(s) => {
                let value = clone_sexp(other);
                env.insert(s.clone(), value);
            },
            SExpression::List(_) => {},
        }
    }
}

/// Scans a list's children from position `i`, accumulating successfully
/// evaluated ordinary children in `acc` and dispatching special forms.
fn eval_items(
    items: &Vec<SExpression>,
    i: usize,
    acc: Vec<SExpression>,
    env: &mut Environment,
    fuel: u64,
) -> (r: Option<SExpression>)
    requires
        i <= items@.len(),
    ensures
        (opt_sexp_view(r), final(env)@) == eval_list_spec(
            seq_sexp_view(items@),
            i as int,
            seq_sexp_view(acc@),
            old(env)@,
            fuel as nat,
        ),
    decreases fuel, essize_from(seq_sexp_view(items@), i as int), 1int,
{
    let ghost iv = seq_sexp_view(items@);
    let ghost av = seq_sexp_view(acc@);
    proof {
        lemma_seq_view(items@);
    }
    if i >= items.len() {
        return Some(SExpression::List(acc));
    }
    proof {
        lemma_essize_from_next(iv, i as int);
        lemma_essize_elem(iv, i as int, i as int);
        if i as int + 1 < iv.len() {
            lemma_essize_elem(iv, i as int, i as int + 1);
        }
        if i as int + 2 < iv.len() {
            lemma_essize_elem(iv, i as int, i as int + 2);
        }
        lemma_essize_mono(iv, i as int + 1, i as int + 3);
    }
    match &items[i] {
        SExpression::Atom(s) => {
            if text_is(s, "car") {
                if i + 1 >= items.len() {
                    return None;
                }
                return match items[i + 1].eval_fueled(env, fuel) {
                    Some(x) => x.car(),
                    None => None,
                };
            }
            if text_is(s, "cdr") {
                if i + 1 >= items.len() {
                    return None;
                }
                return match items[i + 1].eval_fueled(env, fuel) {
                    Some(x) => x.cdr(),
                    None => None,
                };
            }
            if text_is(s, "cons") {
                if i + 1 >= items.len() {
                    return None;
                }
                let x = match items[i + 1].eval_fueled(env, fuel) {
                    Some(x) => x,
                    None => return None,
                };
                if i + 2 >= items.len() {
                    return None;
                }
                let y = match items[i + 2].eval_fueled(env, fuel) {
                    Some(y) => y,
                    None => return None,
                };
                return x.cons(&y);
            }
            if text_is(s, "null?") {
                if i + 1 >= items.len() {
                    return None;
                }
                return match items[i + 1].eval_fueled(env, fuel) {
                    Some(x) => Some(x.is_null()),
                    None => None,
                };
            }
            if text_is(s, "quote") || text_is(s, "'") {
                if i + 1 >= items.len() {
                    return None;
                }
                return items[i + 1].quote();
            }
            if text_is(s, "atom?") {
                if i + 1 >= items.len() {
                    return None;
                }
                return match items[i + 1].eval_fueled(env, fuel) {
                    Some(x) => Some(x.is_atom()),
                    None => None,
                };
            }
            if text_is(s, "eq?") {
                if i + 1 >= items.len() {
                    return None;
                }
                let x = match items[i + 1].eval_fueled(env, fuel) {
                    Some(x) => x,
                    None => return None,
                };
                if i + 2 >= items.len() {
                    return None;
                }
                let y = match items[i + 2].eval_fueled(env, fuel) {
                    Some(y) => y,
                    None => return None,
                };
                return Some(x.is_eq(&y));
            }
            if text_is(s, "lat?") {
                if i + 1 >= items.len() {
                    return None;
                }
                return match items[i + 1].eval_fueled(env, fuel) {
                    Some(x) => Some(x.is_lat()),
                    None => None,
                };
            }
            if text_is(s, "cond") {
                return items[i].cond_fueled(items, i + 1, env, fuel);
            }
            if text_is(s, "define") {
                if i + 1 >= items.len() {
                    return None;
                }
                let k = match items[i + 1].eval_fueled(env, fuel) {
                    Some(x) => x,
                    None => return None,
                };
                if i + 2 >= items.len() {
                    return None;
                }
                let x = match items[i + 2].eval_fueled(env, fuel) {
                    Some(x) => x,
                    None => return None,
                };
                if !k.is_atom_() {
                    return None;
                }
                k.define(&x, env);
                return eval_items(items, i + 3, acc, env, fuel);
            }
            match items[i].eval_fueled(env, fuel) {
                Some(x) => {
                    let mut acc2 = acc;
                    let ghost acc2_before = acc2@;
                    acc2.push(x);
                    proof {
                        assert(acc2@.drop_last() =~= acc2_before);
                        assert(seq_sexp_view(acc2@) == av.push(sexp_view(acc2@.last())));
                    }
                    eval_items(items, i + 1, acc2, env, fuel)
                },
                None => eval_items(items, i + 1, acc, env, fuel),
            }
        },
        SExpression::List(_) => {
            match items[i].eval_fueled(env, fuel) {
                Some(x) => {
                    let mut acc2 = acc;
                    let ghost acc2_before = acc2@;
                    acc2.push(x);
                    proof {
                        assert(acc2@.drop_last() =~= acc2_before);
                        assert(seq_sexp_view(acc2@) == av.push(sexp_view(acc2@.last())));
                    }
                    eval_items(items, i + 1, acc2, env, fuel)
                },
                None => eval_items(items, i + 1, acc, env, fuel),
            }
        },
    }
}

} // verus!
