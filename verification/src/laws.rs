//! Laws relating the pipeline's stages: evaluation is the identity on
//! binding-free, form-free expressions; rendering such an expression gives
//! its canonical text; and lexing then reading that canonical text yields
//! the expression back.

use crate::eval::{eval_list_spec, eval_spec, EnvModel};
use crate::parse::{
    lemma_prun_app, lemma_prun_none, parse_init, parse_spec, prun, pstep, tokens_of,
    tokens_of_items, ParseState,
};
use crate::print::{join_spaces, print_items, print_of, render_items_spec, render_spec};
use crate::sexp::{esize, essize_from, lemma_essize_from_next, SExpView};
use crate::tokens::{flush_pending, is_graphic, lex, TokenView};
use vstd::prelude::*;

verus! {

/// The atom texts that dispatch a special form when they stand at the scan
/// position of a list under evaluation.
pub open spec fn special_name(s: Seq<char>) -> bool {
    ||| s == "car"@
    ||| s == "cdr"@
    ||| s == "cons"@
    ||| s == "null?"@
    ||| s == "quote"@
    ||| s == "'"@
    ||| s == "atom?"@
    ||| s == "eq?"@
    ||| s == "lat?"@
    ||| s == "cond"@
    ||| s == "define"@
}

/// An expression whose evaluation against `env` touches nothing: every atom
/// in it, at any depth, is unbound in `env` and names no special form.
pub open spec fn plain_sexp(e: SExpView, env: EnvModel) -> bool
    decreases e, 0int,
{
    match e {
        SExpView::Atom(s) => !special_name(s) && !env.contains_key(s),
        SExpView::List(items) => plain_items(items, 0, env),
    }
}

/// Whether every element from position `i` on is plain.
pub open spec fn plain_items(items: Seq<SExpView>, i: int, env: EnvModel) -> bool
    decreases items, items.len() - i,
{
    if 0 <= i < items.len() {
        plain_sexp(items[i], env) && plain_items(items, i + 1, env)
    } else {
        true
    }
}

/// A well-formed expression: one whose atoms are non-empty and consist
/// only of printable, non-whitespace, non-bracket characters — exactly the
/// atoms the lexer can produce.
pub open spec fn wf_atom_char(c: char) -> bool {
    is_graphic(c) && c != '(' && c != ')'
}

/// Whether every atom of the expression, at any depth, is non-empty and
/// made of atom characters.
pub open spec fn wf_sexp(e: SExpView) -> bool
    decreases e, 0int,
{
    match e {
        SExpView::Atom(s) => s.len() >= 1 && (forall|k: int|
            0 <= k < s.len() ==> wf_atom_char(#[trigger] s[k])),
        SExpView::List(items) => wf_items(items, 0),
    }
}

/// Whether every element from position `i` on is well-formed.
pub open spec fn wf_items(items: Seq<SExpView>, i: int) -> bool
    decreases items, items.len() - i,
{
    if 0 <= i < items.len() {
        wf_sexp(items[i]) && wf_items(items, i + 1)
    } else {
        true
    }
}

/// Law: evaluation is the identity on plain expressions — an expression
/// whose atoms are all unbound and name no special form evaluates to
/// itself, with the environment untouched, whatever the fuel.
pub proof fn lemma_plain_eval(e: SExpView, env: EnvModel, fuel: nat)
    requires
        plain_sexp(e, env),
    ensures
        eval_spec(e, env, fuel) == (Some(e), env),
    decreases e, 0int,
{
    match e {
        SExpView::Atom(_) => {
        },
        SExpView::List(items) => {
            lemma_plain_eval_items(items, 0, Seq::empty(), env, fuel);
            assert(Seq::<SExpView>::empty() + items.skip(0) =~= items);
        },
    }
}

/// Scanning a run of plain children appends each of them, evaluated to
/// itself, to the accumulator, and changes nothing else.
proof fn lemma_plain_eval_items(
    items: Seq<SExpView>,
    i: int,
    acc: Seq<SExpView>,
    env: EnvModel,
    fuel: nat,
)
    requires
        0 <= i <= items.len(),
        plain_items(items, i, env),
    ensures
        eval_list_spec(items, i, acc, env, fuel) == (
            Some(SExpView::List(acc + items.skip(i))),
            env,
        ),
    decreases items, items.len() - i,
{
    if i < items.len() {
        assert(plain_sexp(items[i], env));
        assert(match items[i] {
            SExpView::Atom(s) => !special_name(s),
            SExpView::List(_) => true,
        });
        lemma_plain_eval(items[i], env, fuel);
        assert(eval_spec(items[i], env, fuel) == (Some(items[i]), env));
        assert(eval_list_spec(items, i, acc, env, fuel) == eval_list_spec(
            items,
            i + 1,
            acc.push(items[i]),
            env,
            fuel,
        ));
        lemma_plain_eval_items(items, i + 1, acc.push(items[i]), env, fuel);
        assert(acc.push(items[i]) + items.skip(i + 1) =~= acc + items.skip(i));
    } else {
        assert(acc + items.skip(i) =~= acc);
    }
}

/// The canonical pieces of a list body: one piece per child, in order.
spec fn print_pieces(items: Seq<SExpView>, i: int) -> Seq<Seq<char>>
    decreases items.len() - i,
{
    if !(0 <= i < items.len()) {
        Seq::empty()
    } else {
        seq![print_of(items[i])] + print_pieces(items, i + 1)
    }
}

proof fn lemma_print_pieces_len(items: Seq<SExpView>, i: int)
    requires
        0 <= i <= items.len(),
    ensures
        print_pieces(items, i).len() == items.len() - i,
    decreases items.len() - i,
{
    if i < items.len() {
        lemma_print_pieces_len(items, i + 1);
    }
}

proof fn lemma_join_print(items: Seq<SExpView>, i: int)
    requires
        0 <= i <= items.len(),
    ensures
        join_spaces(print_pieces(items, i)) == print_items(items, i),
    decreases items.len() - i,
{
    if i < items.len() {
        lemma_join_print(items, i + 1);
        lemma_print_pieces_len(items, i + 1);
        let p = print_pieces(items, i);
        assert(p[0] == print_of(items[i]));
        assert(p.drop_first() =~= print_pieces(items, i + 1));
        if i + 1 < items.len() {
            assert(join_spaces(p) =~= print_items(items, i));
        } else {
            assert(print_of(items[i]) + Seq::<char>::empty() + Seq::<char>::empty() =~= print_of(
                items[i],
            ));
            assert(join_spaces(p) =~= print_items(items, i));
        }
    }
}

/// Law: rendering a plain expression against `env` gives its canonical
/// bracketed, single-space-separated text, and leaves `env` untouched —
/// whatever irregular whitespace the source text had, the reader has
/// already discarded it.
pub proof fn lemma_plain_render(e: SExpView, env: EnvModel, rfuel: nat)
    requires
        plain_sexp(e, env),
        esize(e) <= rfuel,
    ensures
        render_spec(e, env, rfuel) == (print_of(e), env),
    decreases e, 0int,
{
    match e {
        SExpView::Atom(_) => {
            lemma_plain_eval(e, env, u64::MAX as nat);
        },
        SExpView::List(items) => {
            lemma_plain_eval(e, env, u64::MAX as nat);
            lemma_plain_render_items(items, 0, env, rfuel);
            lemma_join_print(items, 0);
        },
    }
}

/// Rendering a run of plain children gives their canonical pieces.
proof fn lemma_plain_render_items(items: Seq<SExpView>, i: int, env: EnvModel, rfuel: nat)
    requires
        0 <= i <= items.len(),
        plain_items(items, i, env),
        essize_from(items, i) < rfuel,
    ensures
        render_items_spec(items, i, env, rfuel) == (print_pieces(items, i), env),
    decreases items, items.len() - i,
{
    if i < items.len() {
        assert(plain_items(items, i + 1, env));
        assert(plain_sexp(items[i], env));
        lemma_plain_eval(items[i], env, u64::MAX as nat);
        lemma_essize_from_next(items, i);
        lemma_plain_render(items[i], env, (rfuel - 1) as nat);
        lemma_plain_render_items(items, i + 1, env, rfuel);
    }
}

/// Scanning atom characters extends the pending atom and emits nothing.
proof fn lemma_lex_atom_chars(s: Seq<char>, rest: Seq<char>, pending: Seq<char>)
    requires
        forall|k: int| 0 <= k < s.len() ==> wf_atom_char(#[trigger] s[k]),
    ensures
        lex(s + rest, pending) == lex(rest, pending + s),
    decreases s.len(),
{
    if s.len() == 0 {
        assert(s + rest =~= rest);
        assert(pending + s =~= pending);
    } else {
        let c = s[0];
        assert(wf_atom_char(c));
        assert((s + rest)[0] == c);
        assert((s + rest).drop_first() =~= s.drop_first() + rest);
        lemma_lex_atom_chars(s.drop_first(), rest, pending.push(c));
        assert(pending.push(c) + s.drop_first() =~= pending + s);
    }
}

/// A pending atom is flushed as one token as soon as the next character is
/// a bracket or a separator, or the input ends.
proof fn lemma_lex_flush(rest: Seq<char>, pending: Seq<char>)
    requires
        pending.len() > 0,
        rest.len() == 0 || !wf_atom_char(rest[0]),
    ensures
        lex(rest, pending) == flush_pending(pending) + lex(rest, Seq::empty()),
{
    if rest.len() == 0 {
        assert(flush_pending(pending) + flush_pending(Seq::<char>::empty()) =~= flush_pending(
            pending,
        ));
    } else {
        let c = rest[0];
        if c == '(' {
            assert(lex(rest, Seq::empty()) =~= flush_pending(Seq::<char>::empty()) + seq![
                TokenView::Open,
            ] + lex(rest.drop_first(), Seq::empty()));
            assert(flush_pending(pending) + seq![TokenView::Open] + lex(
                rest.drop_first(),
                Seq::empty(),
            ) =~= flush_pending(pending) + lex(rest, Seq::empty()));
        } else if c == ')' {
            assert(lex(rest, Seq::empty()) =~= flush_pending(Seq::<char>::empty()) + seq![
                TokenView::Close,
            ] + lex(rest.drop_first(), Seq::empty()));
            assert(flush_pending(pending) + seq![TokenView::Close] + lex(
                rest.drop_first(),
                Seq::empty(),
            ) =~= flush_pending(pending) + lex(rest, Seq::empty()));
        } else {
            assert(!is_graphic(c));
            assert(lex(rest, Seq::empty()) =~= flush_pending(Seq::<char>::empty()) + lex(
                rest.drop_first(),
                Seq::empty(),
            ));
            assert(flush_pending(pending) + lex(rest.drop_first(), Seq::empty()) =~= flush_pending(
                pending,
            ) + lex(rest, Seq::empty()));
        }
    }
}

/// Lexing the canonical text of a well-formed expression, followed by any
/// text that does not extend a pending atom, yields the expression's token
/// rendering followed by the lexing of the remaining text.
proof fn lemma_lex_print(e: SExpView, rest: Seq<char>)
    requires
        wf_sexp(e),
        rest.len() == 0 || !wf_atom_char(rest[0]),
    ensures
        lex(print_of(e) + rest, Seq::empty()) == tokens_of(e) + lex(rest, Seq::empty()),
    decreases e, 0int,
{
    match e {
        SExpView::Atom(s) => {
            lemma_lex_atom_chars(s, rest, Seq::empty());
            assert(Seq::<char>::empty() + s =~= s);
            lemma_lex_flush(rest, s);
        },
        SExpView::List(items) => {
            let body = print_items(items, 0);
            let tail = body + (seq![')'] + rest);
            assert(print_of(e) + rest =~= seq!['('] + tail);
            assert((seq!['('] + tail)[0] == '(');
            assert((seq!['('] + tail).drop_first() =~= tail);
            assert(lex(print_of(e) + rest, Seq::empty()) =~= flush_pending(Seq::<char>::empty())
                + seq![TokenView::Open] + lex(tail, Seq::empty()));
            lemma_lex_print_items(items, 0, seq![')'] + rest);
            assert((seq![')'] + rest)[0] == ')');
            assert((seq![')'] + rest).drop_first() =~= rest);
            assert(lex(seq![')'] + rest, Seq::empty()) =~= flush_pending(Seq::<char>::empty())
                + seq![TokenView::Close] + lex(rest, Seq::empty()));
            assert(flush_pending(Seq::<char>::empty()) + seq![TokenView::Open] + (tokens_of_items(
                items,
                0,
            ) + (flush_pending(Seq::<char>::empty()) + seq![TokenView::Close] + lex(
                rest,
                Seq::empty(),
            ))) =~= tokens_of(e) + lex(rest, Seq::empty()));
        },
    }
}

/// Lexing the canonical text of a run of well-formed children, followed by
/// text that starts with a bracket or separator, yields their concatenated
/// token renderings followed by the lexing of the remaining text.
proof fn lemma_lex_print_items(items: Seq<SExpView>, i: int, rest: Seq<char>)
    requires
        0 <= i <= items.len(),
        wf_items(items, i),
        rest.len() > 0,
        !wf_atom_char(rest[0]),
    ensures
        lex(print_items(items, i) + rest, Seq::empty()) == tokens_of_items(items, i) + lex(
            rest,
            Seq::empty(),
        ),
    decreases items, items.len() - i,
{
    if i >= items.len() {
        assert(print_items(items, i) + rest =~= rest);
        assert(tokens_of_items(items, i) + lex(rest, Seq::empty()) =~= lex(rest, Seq::empty()));
    } else {
        assert(wf_sexp(items[i]));
        assert(wf_items(items, i + 1));
        if i + 1 < items.len() {
            let mid = seq![' '] + (print_items(items, i + 1) + rest);
            assert(print_items(items, i) + rest =~= print_of(items[i]) + mid);
            assert(mid[0] == ' ');
            assert(!wf_atom_char(' '));
            lemma_lex_print(items[i], mid);
            assert(mid.drop_first() =~= print_items(items, i + 1) + rest);
            assert(lex(mid, Seq::empty()) =~= flush_pending(Seq::<char>::empty()) + lex(
                print_items(items, i + 1) + rest,
                Seq::empty(),
            ));
            lemma_lex_print_items(items, i + 1, rest);
            assert(tokens_of(items[i]) + (flush_pending(Seq::<char>::empty()) + (tokens_of_items(
                items,
                i + 1,
            ) + lex(rest, Seq::empty()))) =~= tokens_of_items(items, i) + lex(
                rest,
                Seq::empty(),
            ));
        } else {
            assert(print_items(items, i + 1) =~= Seq::<char>::empty());
            assert(print_items(items, i) + rest =~= print_of(items[i]) + rest);
            lemma_lex_print(items[i], rest);
            assert(tokens_of_items(items, i + 1) =~= Seq::<TokenView>::empty());
            assert(tokens_of(items[i]) + lex(rest, Seq::empty()) =~= tokens_of_items(items, i)
                + lex(rest, Seq::empty()));
        }
    }
}

/// One token advances the reader by one step.
proof fn lemma_prun_one(st: ParseState, t: TokenView)
    ensures
        prun(Some(st), seq![t]) == pstep(st, t),
{
    assert(seq![t][0] == t);
    assert(seq![t].drop_first() =~= Seq::<TokenView>::empty());
    assert(prun(pstep(st, t), Seq::<TokenView>::empty()) == pstep(st, t));
}

/// Feeding an expression's token rendering to a reader with at least one
/// open list appends the expression to the innermost open list.
proof fn lemma_push_expr(st: ParseState, e: SExpView)
    requires
        st.done is None,
        st.stack.len() >= 1,
    ensures
        prun(Some(st), tokens_of(e)) == Some(
            ParseState {
                stack: st.stack.update(st.stack.len() - 1, st.stack.last().push(e)),
                done: None,
            },
        ),
    decreases e, 0int,
{
    match e {
        SExpView::Atom(s) => {
            lemma_prun_one(st, TokenView::Atom(s));
        },
        SExpView::List(items) => {
            let toks = tokens_of(e);
            lemma_prun_app(
                Some(st),
                seq![TokenView::Open],
                tokens_of_items(items, 0) + seq![TokenView::Close],
            );
            assert(seq![TokenView::Open] + (tokens_of_items(items, 0) + seq![TokenView::Close])
                =~= toks);
            lemma_prun_one(st, TokenView::Open);
            let st1 = ParseState { stack: st.stack.push(Seq::empty()), done: None };
            lemma_prun_app(Some(st1), tokens_of_items(items, 0), seq![TokenView::Close]);
            lemma_push_items(st1, items, 0);
            let st2 = ParseState {
                stack: st1.stack.update(st1.stack.len() - 1, st1.stack.last() + items.skip(0)),
                done: None,
            };
            assert(st2.stack =~~= st.stack.push(items));
            lemma_prun_one(st2, TokenView::Close);
            assert(st2.stack.drop_last() =~= st.stack);
            assert(st2.stack.last() =~= items);
        },
    }
}

/// Feeding the token renderings of a run of children to a reader with at
/// least one open list appends them all, in order, to the innermost open
/// list.
proof fn lemma_push_items(st: ParseState, items: Seq<SExpView>, i: int)
    requires
        st.done is None,
        st.stack.len() >= 1,
        0 <= i <= items.len(),
    ensures
        prun(Some(st), tokens_of_items(items, i)) == Some(
            ParseState {
                stack: st.stack.update(st.stack.len() - 1, st.stack.last() + items.skip(i)),
                done: None,
            },
        ),
    decreases items, items.len() - i,
{
    if i >= items.len() {
        assert(st.stack.last() + items.skip(i) =~= st.stack.last());
        assert(st.stack.update(st.stack.len() - 1, st.stack.last() + items.skip(i)) =~= st.stack);
        let goal = ParseState {
            stack: st.stack.update(st.stack.len() - 1, st.stack.last() + items.skip(i)),
            done: None,
        };
        assert(goal == st);
    } else {
        lemma_prun_app(Some(st), tokens_of(items[i]), tokens_of_items(items, i + 1));
        lemma_push_expr(st, items[i]);
        let st1 = ParseState {
            stack: st.stack.update(st.stack.len() - 1, st.stack.last().push(items[i])),
            done: None,
        };
        lemma_push_items(st1, items, i + 1);
        assert(st1.stack.last() + items.skip(i + 1) =~= st.stack.last() + items.skip(i));
        assert(st1.stack.update(st1.stack.len() - 1, st1.stack.last() + items.skip(i + 1)) =~= st
            .stack.update(st.stack.len() - 1, st.stack.last() + items.skip(i)));
    }
}

/// Law: reading the token rendering of any expression yields exactly that
/// expression.
pub proof fn lemma_parse_tokens_of(e: SExpView)
    ensures
        parse_spec(tokens_of(e)) == Some(e),
{
    match e {
        SExpView::Atom(s) => {
            lemma_prun_one(parse_init(), TokenView::Atom(s));
        },
        SExpView::List(items) => {
            let toks = tokens_of(e);
            lemma_prun_app(
                Some(parse_init()),
                seq![TokenView::Open],
                tokens_of_items(items, 0) + seq![TokenView::Close],
            );
            assert(seq![TokenView::Open] + (tokens_of_items(items, 0) + seq![TokenView::Close])
                =~= toks);
            lemma_prun_one(parse_init(), TokenView::Open);
            let st1 = ParseState {
                stack: Seq::<Seq<SExpView>>::empty().push(Seq::empty()),
                done: None,
            };
            lemma_prun_app(Some(st1), tokens_of_items(items, 0), seq![TokenView::Close]);
            lemma_push_items(st1, items, 0);
            let st2 = ParseState {
                stack: st1.stack.update(0, st1.stack.last() + items.skip(0)),
                done: None,
            };
            assert(st2.stack =~~= Seq::<Seq<SExpView>>::empty().push(items));
            lemma_prun_one(st2, TokenView::Close);
            assert(st2.stack.last() =~= items);
            assert(st2.stack.drop_last() =~= Seq::<Seq<SExpView>>::empty());
        },
    }
}

/// Law: for a well-formed expression — atoms non-empty and made only of
/// printable non-bracket characters, exactly what the reader can ever
/// produce — lexing its canonical text and reading the resulting tokens
/// yields the expression back.
pub proof fn lemma_print_parse_roundtrip(e: SExpView)
    requires
        wf_sexp(e),
    ensures
        parse_spec(lex(print_of(e), Seq::empty())) == Some(e),
{
    lemma_lex_print(e, Seq::empty());
    assert(print_of(e) + Seq::<char>::empty() =~= print_of(e));
    assert(tokens_of(e) + lex(Seq::<char>::empty(), Seq::empty()) =~= tokens_of(e));
    lemma_parse_tokens_of(e);
}

/// Law (idempotence): rendering a plain, well-formed expression gives its
/// canonical text; re-lexing and re-reading that text gives the expression
/// back, so rendering it again gives the same text.
pub proof fn lemma_rerender_idempotent(e: SExpView, env: EnvModel, rfuel: nat)
    requires
        wf_sexp(e),
        plain_sexp(e, env),
        esize(e) <= rfuel,
    ensures
        render_spec(e, env, rfuel).0 == print_of(e),
        parse_spec(lex(render_spec(e, env, rfuel).0, Seq::empty())) == Some(e),
{
    lemma_plain_render(e, env, rfuel);
    lemma_print_parse_roundtrip(e);
}

/// A token the lexer could have produced: an atom token's text is
/// non-empty and made only of atom characters.
pub open spec fn wf_token(t: TokenView) -> bool {
    match t {
        TokenView::Atom(s) => s.len() >= 1 && (forall|k: int|
            0 <= k < s.len() ==> wf_atom_char(#[trigger] s[k])),
        TokenView::Open => true,
        TokenView::Close => true,
    }
}

/// Whether every token of the sequence could have come from the lexer.
pub open spec fn wf_tokens(toks: Seq<TokenView>) -> bool {
    forall|j: int| 0 <= j < toks.len() ==> wf_token(#[trigger] toks[j])
}

proof fn lemma_wf_tokens_app(a: Seq<TokenView>, b: Seq<TokenView>)
    requires
        wf_tokens(a),
        wf_tokens(b),
    ensures
        wf_tokens(a + b),
{
    assert forall|j: int| 0 <= j < (a + b).len() implies wf_token(#[trigger] (a + b)[j]) by {
        if j < a.len() {
            assert((a + b)[j] == a[j]);
        } else {
            assert((a + b)[j] == b[j - a.len()]);
        }
    }
}

/// The lexer only produces well-formed tokens: every atom token's text is
/// a non-empty run of atom characters.
proof fn lemma_lex_wf(text: Seq<char>, pending: Seq<char>)
    requires
        forall|k: int| 0 <= k < pending.len() ==> wf_atom_char(#[trigger] pending[k]),
    ensures
        wf_tokens(lex(text, pending)),
    decreases text.len(),
{
    if text.len() == 0 {
        if pending.len() == 0 {
            assert(wf_tokens(lex(text, pending)));
        } else {
            assert(wf_token(TokenView::Atom(pending)));
            assert(wf_tokens(lex(text, pending)));
        }
    } else {
        let c = text[0];
        let rest = text.drop_first();
        if c == '(' || c == ')' || !is_graphic(c) {
            lemma_lex_wf(rest, Seq::empty());
            let bracket: Seq<TokenView> = if c == '(' {
                seq![TokenView::Open]
            } else if c == ')' {
                seq![TokenView::Close]
            } else {
                Seq::empty()
            };
            assert(wf_tokens(flush_pending(pending))) by {
                if pending.len() > 0 {
                    assert(wf_token(TokenView::Atom(pending)));
                }
            };
            assert(wf_tokens(bracket));
            lemma_wf_tokens_app(flush_pending(pending), bracket);
            lemma_wf_tokens_app(flush_pending(pending) + bracket, lex(rest, Seq::empty()));
            if c == '(' || c == ')' {
                assert(lex(text, pending) == (flush_pending(pending) + bracket) + lex(
                    rest,
                    Seq::empty(),
                ));
            } else {
                assert((flush_pending(pending) + bracket) =~= flush_pending(pending));
                assert(lex(text, pending) == (flush_pending(pending) + bracket) + lex(
                    rest,
                    Seq::empty(),
                ));
            }
        } else {
            assert(wf_atom_char(c));
            assert(forall|k: int|
                0 <= k < pending.push(c).len() ==> wf_atom_char(#[trigger] pending.push(c)[k]));
            lemma_lex_wf(rest, pending.push(c));
        }
    }
}

/// Whether every expression of the sequence is well-formed.
spec fn wf_els(items: Seq<SExpView>) -> bool {
    forall|k: int| 0 <= k < items.len() ==> wf_sexp(#[trigger] items[k])
}

/// Whether everything the reader has built so far is well-formed: the
/// elements of every open list, and the completed expression if any.
spec fn wf_state(st: ParseState) -> bool {
    &&& forall|j: int| 0 <= j < st.stack.len() ==> wf_els(#[trigger] st.stack[j])
    &&& match st.done {
        Some(e) => wf_sexp(e),
        None => true,
    }
}

proof fn lemma_wf_items_from_els(items: Seq<SExpView>, i: int)
    requires
        wf_els(items),
        0 <= i <= items.len(),
    ensures
        wf_items(items, i),
    decreases items.len() - i,
{
    if i < items.len() {
        lemma_wf_items_from_els(items, i + 1);
    }
}

/// One reader step keeps everything built so far well-formed, given a
/// well-formed token.
proof fn lemma_pstep_wf(st: ParseState, t: TokenView)
    requires
        wf_state(st),
        wf_token(t),
    ensures
        (match pstep(st, t) {
            Some(st1) => wf_state(st1),
            None => true,
        }),
{
    if st.done is None {
        match t {
            TokenView::Open => {
                let st1 = ParseState { stack: st.stack.push(Seq::empty()), done: None };
                assert forall|j: int| 0 <= j < st1.stack.len() implies wf_els(
                    #[trigger] st1.stack[j],
                ) by {
                    if j < st.stack.len() {
                        assert(st1.stack[j] == st.stack[j]);
                    } else {
                        assert(st1.stack[j] =~= Seq::<SExpView>::empty());
                    }
                }
            },
            TokenView::Close => {
                if st.stack.len() > 0 {
                    let top = st.stack.last();
                    assert(wf_els(top));
                    lemma_wf_items_from_els(top, 0);
                    let e = SExpView::List(top);
                    assert(wf_sexp(e));
                    let rest = st.stack.drop_last();
                    assert(forall|j: int|
                        0 <= j < rest.len() ==> wf_els(#[trigger] rest[j]));
                    if rest.len() > 0 {
                        let newtop = rest.last().push(e);
                        let below = rest.last();
                        assert(wf_els(newtop)) by {
                            assert(wf_els(below));
                            assert(forall|k: int|
                                0 <= k < newtop.len() - 1 ==> #[trigger] newtop[k] == below[k]);
                        };
                        let st1 = ParseState {
                            stack: rest.update(rest.len() - 1, newtop),
                            done: None,
                        };
                        assert(forall|j: int|
                            0 <= j < st1.stack.len() ==> wf_els(#[trigger] st1.stack[j]));
                    }
                }
            },
            TokenView::Atom(s) => {
                let e = SExpView::Atom(s);
                assert(wf_sexp(e));
                if st.stack.len() > 0 {
                    let newtop = st.stack.last().push(e);
                    let below = st.stack.last();
                    assert(wf_els(newtop)) by {
                        assert(wf_els(below));
                        assert(forall|k: int|
                            0 <= k < newtop.len() - 1 ==> #[trigger] newtop[k] == below[k]);
                    };
                    let st1 = ParseState {
                        stack: st.stack.update(st.stack.len() - 1, newtop),
                        done: None,
                    };
                    assert(forall|j: int|
                        0 <= j < st1.stack.len() ==> wf_els(#[trigger] st1.stack[j]));
                }
            },
        }
    }
}

/// The reader run over well-formed tokens keeps its state well-formed.
proof fn lemma_prun_wf(st: ParseState, toks: Seq<TokenView>)
    requires
        wf_state(st),
        wf_tokens(toks),
    ensures
        (match prun(Some(st), toks) {
            Some(st1) => wf_state(st1),
            None => true,
        }),
    decreases toks.len(),
{
    if toks.len() > 0 {
        assert(wf_token(toks[0]));
        lemma_pstep_wf(st, toks[0]);
        assert(wf_tokens(toks.drop_first())) by {
            assert(forall|j: int|
                0 <= j < toks.drop_first().len() ==> #[trigger] toks.drop_first()[j] == toks[j
                    + 1]);
        };
        match pstep(st, toks[0]) {
            Some(st1) => {
                lemma_prun_wf(st1, toks.drop_first());
            },
            None => {
                lemma_prun_none(toks.drop_first());
            },
        }
    }
}

/// Law: every expression the reader produces from lexed text is
/// well-formed — its atoms are non-empty and hold only printable,
/// non-whitespace, non-bracket characters.
pub proof fn lemma_parsed_wf(text: Seq<char>)
    ensures
        (match parse_spec(lex(text, Seq::empty())) {
            Some(e) => wf_sexp(e),
            None => true,
        }),
{
    lemma_lex_wf(text, Seq::empty());
    assert(wf_state(parse_init()));
    lemma_prun_wf(parse_init(), lex(text, Seq::empty()));
}

/// Law: an expression read from any source text, when it is plain for
/// `env`, renders to the canonical bracketed, single-space-separated text,
/// and re-lexing and re-reading that rendering yields the expression back
/// — so a second rendering repeats the first, whatever whitespace the
/// source text had.
pub proof fn lemma_parsed_round_trip(text: Seq<char>, e: SExpView, env: EnvModel, rfuel: nat)
    requires
        parse_spec(lex(text, Seq::empty())) == Some(e),
        plain_sexp(e, env),
        esize(e) <= rfuel,
    ensures
        render_spec(e, env, rfuel) == (print_of(e), env),
        parse_spec(lex(render_spec(e, env, rfuel).0, Seq::empty())) == Some(e),
{
    lemma_parsed_wf(text);
    lemma_plain_render(e, env, rfuel);
    lemma_print_parse_roundtrip(e);
}

} // verus!
