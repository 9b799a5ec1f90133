//! Reading: a token sequence to exactly one well-formed expression tree,
//! with every malformed sequence rejected.
//!
//! The reader's meaning is given as a state machine over the tokens: the
//! state holds the bodies of the lists still open and the completed
//! top-level expression, if any. Reading succeeds exactly when, after the
//! last token, no list is still open and one expression has been completed.

use crate::sexp::{opt_sexp_view, seq_sexp_view, sexp_view, SExpView, SExpression};
use crate::tokens::{Token, TokenView};
use vstd::prelude::*;
use vstd::slice::slice_index_get;

verus! {

/// The reader's state after some prefix of the tokens: the bodies of the
/// lists still open (innermost last), and the completed top-level
/// expression, if any.
pub struct ParseState {
    pub stack: Seq<Seq<SExpView>>,
    pub done: Option<SExpView>,
}

/// The reader's initial state: nothing open, nothing read.
pub open spec fn parse_init() -> ParseState {
    ParseState { stack: Seq::empty(), done: None }
}

/// One reader step. A token after the single top-level expression is
/// complete is a rejection, as is a close bracket with no list open. A
/// close bracket completes the innermost open list; an atom or a completed
/// list either extends the innermost open list or, at the top level,
/// becomes the completed expression.
pub open spec fn pstep(st: ParseState, t: TokenView) -> Option<ParseState> {
    if st.done is Some {
        None
    } else {
        match t {
            TokenView::Open => Some(
                ParseState { stack: st.stack.push(Seq::empty()), done: None },
            ),
            TokenView::Close => {
                if st.stack.len() == 0 {
                    None
                } else {
                    let e = SExpView::List(st.stack.last());
                    let rest = st.stack.drop_last();
                    if rest.len() == 0 {
                        Some(ParseState { stack: rest, done: Some(e) })
                    } else {
                        Some(
                            ParseState {
                                stack: rest.update(rest.len() - 1, rest.last().push(e)),
                                done: None,
                            },
                        )
                    }
                }
            },
            TokenView::Atom(s) => {
                if st.stack.len() == 0 {
                    Some(ParseState { stack: st.stack, done: Some(SExpView::Atom(s)) })
                } else {
                    Some(
                        ParseState {
                            stack: st.stack.update(
                                st.stack.len() - 1,
                                st.stack.last().push(SExpView::Atom(s)),
                            ),
                            done: None,
                        },
                    )
                }
            },
        }
    }
}

/// The reader run over a token sequence from a given state; a rejection
/// anywhere rejects the whole sequence.
pub open spec fn prun(st: Option<ParseState>, toks: Seq<TokenView>) -> Option<ParseState>
    decreases toks.len(),
{
    if toks.len() == 0 {
        st
    } else {
        match st {
            None => None,
            Some(s0) => prun(pstep(s0, toks[0]), toks.drop_first()),
        }
    }
}

/// The expression read from a token sequence: exactly one complete
/// expression consuming all tokens, or nothing. Empty input, an
/// unterminated list, a stray close bracket and trailing tokens are all
/// rejections.
pub open spec fn parse_spec(toks: Seq<TokenView>) -> Option<SExpView> {
    match prun(Some(parse_init()), toks) {
        Some(st) => if st.stack.len() == 0 {
            st.done
        } else {
            None
        },
        None => None,
    }
}

/// The token sequence whose reading yields exactly the expression `e`: its
/// atoms and brackets, in order, with no separators.
pub open spec fn tokens_of(e: SExpView) -> Seq<TokenView>
    decreases e, 0int,
{
    match e {
        SExpView::Atom(s) => seq![TokenView::Atom(s)],
        SExpView::List(items) => seq![TokenView::Open] + tokens_of_items(items, 0) + seq![
            TokenView::Close,
        ],
    }
}

/// The token sequences of the elements from position `i` on, concatenated.
pub open spec fn tokens_of_items(items: Seq<SExpView>, i: int) -> Seq<TokenView>
    decreases items, items.len() - i,
{
    if !(0 <= i < items.len()) {
        Seq::empty()
    } else {
        tokens_of(items[i]) + tokens_of_items(items, i + 1)
    }
}

/// A rejection is final: no further tokens recover from it.
pub proof fn lemma_prun_none(toks: Seq<TokenView>)
    ensures
        prun(None, toks) == None::<ParseState>,
{
}

/// Running the reader over a concatenation runs it over each part in turn.
pub proof fn lemma_prun_app(st: Option<ParseState>, a: Seq<TokenView>, b: Seq<TokenView>)
    ensures
        prun(st, a + b) == prun(prun(st, a), b),
    decreases a.len(),
{
    if a.len() == 0 {
        assert(a + b =~= b);
    } else {
        assert((a + b)[0] == a[0]);
        assert((a + b).drop_first() =~= a.drop_first() + b);
        match st {
            None => {
                lemma_prun_none(a + b);
                lemma_prun_none(b);
            },
            Some(s0) => {
                lemma_prun_app(pstep(s0, a[0]), a.drop_first(), b);
            },
        }
    }
}

/// The models of the partial lists on the reader's working stack.
spec fn stack_views(s: Seq<Vec<SExpression>>) -> Seq<Seq<SExpView>> {
    Seq::new(s.len(), |j: int| seq_sexp_view(s[j]@))
}

/// The reader state modelled by the executable reader's working values.
spec fn cur_state(stack: Seq<Vec<SExpression>>, done: Option<SExpression>) -> ParseState {
    ParseState { stack: stack_views(stack), done: opt_sexp_view(done) }
}

/// Reads exactly one expression from the tokens, rejecting empty input,
/// imbalance and trailing tokens.
pub fn to_sexpression(tokens: &[Token]) -> (r: Option<SExpression>)
    ensures
        opt_sexp_view(r) == parse_spec(tokens.deep_view()),
{
    let ghost toks = tokens.deep_view();
    let n = tokens.len();
    let mut stack: Vec<Vec<SExpression>> = Vec::new();
    let mut done: Option<SExpression> = None;
    let mut i: usize = 0;
    proof {
        assert(toks.take(0) =~= Seq::<TokenView>::empty());
        assert(stack_views(stack@) =~= Seq::<Seq<SExpView>>::empty());
    }
    while i < n
        invariant
            toks == tokens.deep_view(),
            n == tokens@.len(),
            toks.len() == n,
            i <= n,
            prun(Some(parse_init()), toks.take(i as int)) == Some(cur_state(stack@, done)),
        decreases n - i,
    {
        let ghost st0 = cur_state(stack@, done);
        proof {
            lemma_prun_app(Some(parse_init()), toks.take(i as int), seq![toks[i as int]]);
            assert(toks.take(i as int) + seq![toks[i as int]] =~= toks.take(i as int + 1));
            assert(seq![toks[i as int]].drop_first() =~= Seq::<TokenView>::empty());
            assert(prun(pstep(st0, toks[i as int]), Seq::<TokenView>::empty()) == pstep(
                st0,
                toks[i as int],
            ));
            assert(seq![toks[i as int]][0] == toks[i as int]);
            assert(prun(Some(st0), seq![toks[i as int]]) == pstep(st0, toks[i as int]));
            assert(prun(Some(parse_init()), toks.take(i as int + 1)) == pstep(
                st0,
                toks[i as int],
            ));
        }
        let t = slice_index_get(tokens, i);
        proof {
            assert(toks[i as int] == tokens@[i as int].deep_view());
        }
        if done.is_some() {
            proof {
                assert(toks.take(i as int + 1) + toks.skip(i as int + 1) =~= toks);
                lemma_prun_app(
                    Some(parse_init()),
                    toks.take(i as int + 1),
                    toks.skip(i as int + 1),
                );
                lemma_prun_none(toks.skip(i as int + 1));
            }
            return None;
        }
        match t {
            Token::OpenBracket => {
                let ghost stack0 = stack@;
                stack.push(Vec::new());
                proof {
                    assert(seq_sexp_view(Seq::<SExpression>::empty()) =~= Seq::<
                        SExpView,
                    >::empty());
                    assert(stack_views(stack@) =~= stack_views(stack0).push(Seq::<
                        SExpView,
                    >::empty()));
                }
            },
            Token::CloseBracket => {
                if stack.is_empty() {
                    proof {
                        assert(toks.take(i as int + 1) + toks.skip(i as int + 1) =~= toks);
                        lemma_prun_app(
                            Some(parse_init()),
                            toks.take(i as int + 1),
                            toks.skip(i as int + 1),
                        );
                        lemma_prun_none(toks.skip(i as int + 1));
                    }
                    return None;
                }
                let ghost stack0 = stack@;
                let last_idx = stack.len() - 1;
                let top = stack.remove(last_idx);
                proof {
                    assert(stack@ =~= stack0.drop_last());
                    assert(seq_sexp_view(top@) == stack_views(stack0).last());
                }
                let e = SExpression::List(top);
                let ghost ev = sexp_view(e);
                proof {
                    assert(ev == SExpView::List(st0.stack.last()));
                }
                if stack.is_empty() {
                    done = Some(e);
                    proof {
                        assert(stack_views(stack@) =~= st0.stack.drop_last());
                    }
                } else {
                    let ghost stack1 = stack@;
                    let last_idx2 = stack.len() - 1;
                    let mut inner = stack.remove(last_idx2);
                    let ghost inner0 = inner@;
                    inner.push(e);
                    proof {
                        assert(inner@.drop_last() =~= inner0);
                        assert(seq_sexp_view(inner@) == seq_sexp_view(inner0).push(ev));
                    }
                    stack.push(inner);
                    proof {
                        let rest = st0.stack.drop_last();
                        assert(stack1 =~= stack0.drop_last());
                        assert(stack@ =~= stack1.drop_last().push(inner));
                        assert(seq_sexp_view(inner0) == rest.last());
                        assert(stack_views(stack@) =~= rest.update(
                            rest.len() - 1,
                            rest.last().push(ev),
                        ));
                    }
                }
            },
            Token::Atom(s) => {
                let item = SExpression::Atom(s.clone());
                if stack.is_empty() {
                    done = Some(item);
                } else {
                    let ghost stack0 = stack@;
                    let last_idx = stack.len() - 1;
                    let mut inner = stack.remove(last_idx);
                    let ghost inner0 = inner@;
                    let ghost itemv = sexp_view(item);
                    inner.push(item);
                    proof {
                        assert(itemv == SExpView::Atom(s@));
                        assert(inner@.drop_last() =~= inner0);
                        assert(inner@.last() == item);
                        assert(seq_sexp_view(inner@) == seq_sexp_view(inner@.drop_last()).push(
                            sexp_view(inner@.last()),
                        ));
                        assert(seq_sexp_view(inner@) == seq_sexp_view(inner0).push(
                            SExpView::Atom(s@),
                        ));
                    }
                    stack.push(inner);
                    proof {
                        assert(stack@ =~= stack0.drop_last().push(inner));
                        assert(seq_sexp_view(inner0) == st0.stack.last());
                        assert(stack_views(stack@) =~= st0.stack.update(
                            st0.stack.len() - 1,
                            st0.stack.last().push(SExpView::Atom(s@)),
                        ));
                    }
                }
            },
        }
        i += 1;
    }
    proof {
        assert(toks.take(n as int) =~= toks);
    }
    if !stack.is_empty() {
        return None;
    }
    done
}

} // verus!
