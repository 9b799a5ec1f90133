//! Printing: an expression tree back to canonical bracketed text, and the
//! text-in/text-out driver for the whole pipeline.
//!
//! Printing consults the environment: an atom is evaluated (resolving bound
//! symbols, possibly transitively) before it is rendered, and a list
//! renders its children evaluated-then-rendered, space-separated, skipping
//! children whose evaluation fails. Because evaluation of a bound atom can
//! produce ever larger expressions, the depth of re-rendering is bounded by
//! a fuel; the executable printer runs with the largest fuel a machine word
//! can hold.

use crate::env::Environment;
use crate::eval::{eval_full, EnvModel};
use crate::parse::{parse_spec, to_sexpression};
use crate::sexp::{lemma_seq_view, seq_sexp_view, sexp_view, SExpView, SExpression};
use crate::tokens::{lex, to_tokens};
use vstd::prelude::*;
use vstd::string::{StrSliceExecFns, StringExecFns};

verus! {

/// The pieces of a rendered list body joined by single spaces.
pub open spec fn join_spaces(pieces: Seq<Seq<char>>) -> Seq<char>
    decreases pieces.len(),
{
    if pieces.len() == 0 {
        Seq::empty()
    } else if pieces.len() == 1 {
        pieces[0]
    } else {
        pieces[0] + seq![' '] + join_spaces(pieces.drop_first())
    }
}

proof fn lemma_join_snoc(pieces: Seq<Seq<char>>, p: Seq<char>)
    ensures
        join_spaces(pieces.push(p)) == if pieces.len() == 0 {
            p
        } else {
            join_spaces(pieces) + seq![' '] + p
        },
    decreases pieces.len(),
{
    if pieces.len() == 0 {
        assert(pieces.push(p)[0] == p);
    } else {
        lemma_join_snoc(pieces.drop_first(), p);
        assert(pieces.push(p).drop_first() =~= pieces.drop_first().push(p));
        assert(pieces.push(p)[0] == pieces[0]);
        if pieces.len() == 1 {
            assert(join_spaces(pieces.push(p)) =~= join_spaces(pieces) + seq![' '] + p);
        } else {
            assert(pieces.drop_first().len() >= 1);
            assert(join_spaces(pieces.push(p)) =~= join_spaces(pieces) + seq![' '] + p);
        }
    }
}

/// The canonical text of an expression, independent of any environment: an
/// atom is its text, a list is `(`, its children single-space-separated,
/// `)`.
pub open spec fn print_of(e: SExpView) -> Seq<char>
    decreases e, 0int,
{
    match e {
        SExpView::Atom(s) => s,
        SExpView::List(items) => seq!['('] + print_items(items, 0) + seq![')'],
    }
}

/// The canonical text of a list body from position `i` on, children
/// single-space-separated.
pub open spec fn print_items(items: Seq<SExpView>, i: int) -> Seq<char>
    decreases items, items.len() - i,
{
    if !(0 <= i < items.len()) {
        Seq::empty()
    } else {
        print_of(items[i]) + (if i + 1 < items.len() {
            seq![' ']
        } else {
            Seq::empty()
        }) + print_items(items, i + 1)
    }
}

/// The rendered text and final environment of rendering one expression
/// with substitution-depth bound `rfuel`.
pub open spec fn render_spec(e: SExpView, env: EnvModel, rfuel: nat) -> (Seq<char>, EnvModel)
    decreases rfuel, 1int, 0int,
{
    match e {
        SExpView::Atom(_) => {
            let (v, env1) = eval_full(e, env);
            match v {
                Some(SExpView::Atom(t)) => (t, env1),
                Some(SExpView::List(x)) => if rfuel == 0 {
                    (Seq::empty(), env1)
                } else {
                    render_spec(SExpView::List(x), env1, (rfuel - 1) as nat)
                },
                None => (Seq::empty(), env1),
            }
        },
        SExpView::List(items) => {
            let (pieces, env1) = render_items_spec(items, 0, env, rfuel);
            (seq!['('] + join_spaces(pieces) + seq![')'], env1)
        },
    }
}

/// The rendered pieces and final environment of rendering a list's
/// children from position `i` on: each child is evaluated, a successful
/// child contributes its rendering as one piece, a failing child
/// contributes nothing.
pub open spec fn render_items_spec(items: Seq<SExpView>, i: int, env: EnvModel, rfuel: nat) -> (
    Seq<Seq<char>>,
    EnvModel,
)
    decreases rfuel, 0int, items.len() - i,
{
    if !(0 <= i < items.len()) {
        (Seq::empty(), env)
    } else {
        let (v, env1) = eval_full(items[i], env);
        match v {
            Some(x) => {
                let (s1, env2) = if rfuel == 0 {
                    (Seq::<char>::empty(), env1)
                } else {
                    render_spec(x, env1, (rfuel - 1) as nat)
                };
                let (rest, env3) = render_items_spec(items, i + 1, env2, rfuel);
                (seq![s1] + rest, env3)
            },
            None => render_items_spec(items, i + 1, env1, rfuel),
        }
    }
}

/// Renders the expression against `env`: bound atoms resolve before
/// printing, children that fail to evaluate are skipped, and a list prints
/// as `(`, its children space-separated, `)`.
pub fn sexpression_to_string(sexp: &SExpression, env: &mut Environment) -> (r: String)
    ensures
        (r@, final(env)@) == render_spec(sexp@, old(env)@, u64::MAX as nat),
{
    render_fueled(sexp, env, u64::MAX)
}

/// Rendering with an explicit bound on re-rendering depth.
fn render_fueled(sexp: &SExpression, env: &mut Environment, rfuel: u64) -> (r: String)
    ensures
        (r@, final(env)@) == render_spec(sexp@, old(env)@, rfuel as nat),
    decreases rfuel, 1int, 0int,
{
    match sexp {
        SExpression::Atom(_) => {
            let v = sexp.eval(env);
            match v {
                Some(e) => {
                    match &e {
                        SExpression::Atom(t) => t.clone(),
                        SExpression::List(_) => {
                            if rfuel == 0 {
                                String::new()
                            } else {
                                render_fueled(&e, env, rfuel - 1)
                            }
                        },
                    }
                },
                None => String::new(),
            }
        },
        SExpression::List(items) => {
            let ghost iv = seq_sexp_view(items@);
            let ghost env0 = env@;
            let ghost fuel_n = rfuel as nat;
            proof {
                lemma_seq_view(items@);
            }
            let mut out = String::new();
            out.append("(");
            let mut first = true;
            let ghost mut pieces: Seq<Seq<char>> = Seq::empty();
            let mut i: usize = 0;
            proof {
                reveal_strlit("(");
                assert(out@ =~= seq!['('] + join_spaces(pieces));
            }
            while i < items.len()
                invariant
                    iv == seq_sexp_view(items@),
                    iv.len() == items@.len(),
                    forall|j: int| 0 <= j < items@.len() ==> iv[j] == sexp_view(items@[j]),
                    i <= items@.len(),
                    fuel_n == rfuel as nat,
                    first == (pieces.len() == 0),
                    out@ == seq!['('] + join_spaces(pieces),
                    render_items_spec(iv, 0, env0, fuel_n).0 == pieces + render_items_spec(
                        iv,
                        i as int,
                        env@,
                        fuel_n,
                    ).0,
                    render_items_spec(iv, 0, env0, fuel_n).1 == render_items_spec(
                        iv,
                        i as int,
                        env@,
                        fuel_n,
                    ).1,
                decreases items@.len() - i,
            {
                let ghost env_a = env@;
                let v = items[i].eval(env);
                match v {
                    Some(x) => {
                        let ghost env_b = env@;
                        let piece = if rfuel == 0 {
                            String::new()
                        } else {
                            render_fueled(&x, env, rfuel - 1)
                        };
                        if !first {
                            out.append(" ");
                        }
                        out.append(piece.as_str());
                        first = false;
                        proof {
                            reveal_strlit(" ");
                            lemma_join_snoc(pieces, piece@);
                            let rest_pair = render_items_spec(iv, i as int + 1, env@, fuel_n);
                            assert(render_items_spec(iv, i as int, env_a, fuel_n).0 == seq![
                                piece@,
                            ] + rest_pair.0);
                            assert(render_items_spec(iv, i as int, env_a, fuel_n).1
                                == rest_pair.1);
                            pieces = pieces.push(piece@);
                            assert(out@ =~= seq!['('] + join_spaces(pieces));
                            assert(pieces + rest_pair.0 =~= pieces.drop_last() + (seq![piece@]
                                + rest_pair.0));
                        }
                    },
                    None => {
                        proof {
                            assert(render_items_spec(iv, i as int, env_a, fuel_n)
                                == render_items_spec(iv, i as int + 1, env@, fuel_n));
                        }
                    },
                }
                i += 1;
            }
            out.append(")");
            proof {
                reveal_strlit(")");
                assert(render_items_spec(iv, items@.len() as int, env@, fuel_n).0 =~= Seq::<
                    Seq<char>,
                >::empty());
                assert(pieces + Seq::<Seq<char>>::empty() =~= pieces);
                assert(out@ =~= seq!['('] + join_spaces(pieces) + seq![')']);
            }
            out
        },
    }
}

/// The text produced for raw source text by the whole pipeline: lex, read,
/// evaluate in a fresh environment, render. Empty input gives empty text; a
/// rejected read gives one marker text; a failed evaluation gives another.
pub open spec fn eval_scheme_spec(text: Seq<char>) -> Seq<char> {
    let toks = lex(text, Seq::empty());
    match parse_spec(toks) {
        Some(e) => {
            let (v, env1) = eval_full(e, Map::empty());
            match v {
                Some(x) => render_spec(x, env1, u64::MAX as nat).0,
                None => "Bad eval!"@,
            }
        },
        None => if text.len() == 0 {
            Seq::empty()
        } else {
            "Bad scheme!"@
        },
    }
}

/// Runs the whole pipeline on raw source text: the printed form of the
/// evaluated single top-level expression, the empty string for empty
/// input, `Bad scheme!` when the reader rejects the input, and `Bad eval!`
/// when evaluation of a well-formed expression fails.
pub fn eval_scheme_to_string(s: &str) -> (r: String)
    ensures
        r@ == eval_scheme_spec(s@),
{
    let tokens = to_tokens(s);
    let mut env = Environment::new();
    let token_slice = tokens.as_slice();
    proof {
        assert(token_slice.deep_view() =~= tokens.deep_view());
    }
    match to_sexpression(token_slice) {
        Some(sexp) => match sexp.eval(&mut env) {
            Some(res) => sexpression_to_string(&res, &mut env),
            None => "Bad eval!".to_owned(),
        },
        None => {
            if s.unicode_len() == 0 {
                String::new()
            } else {
                "Bad scheme!".to_owned()
            }
        },
    }
}

} // verus!
