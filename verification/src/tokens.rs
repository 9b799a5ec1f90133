//! Lexing: raw text to a sequence of bracket and atom tokens, together with
//! the token-level classification predicates for atoms, lists and
//! s-expressions.

use vstd::prelude::*;
use vstd::string::StrSliceExecFns;

verus! {

/// A lexical token: an opening bracket, a closing bracket, or an atom,
/// which is a maximal run of printable, non-whitespace, non-bracket
/// characters.
#[derive(Debug, PartialEq)]
pub enum Token {
    OpenBracket,
    CloseBracket,
    Atom(String),
}

/// The mathematical model of a token: atom text is a sequence of characters.
pub enum TokenView {
    Open,
    Close,
    Atom(Seq<char>),
}

impl View for Token {
    type V = TokenView;

    open spec fn view(&self) -> TokenView {
        match self {
            Token::OpenBracket => TokenView::Open,
            Token::CloseBracket => TokenView::Close,
            Token::Atom(s) => TokenView::Atom(s@),
        }
    }
}

impl DeepView for Token {
    type V = TokenView;

    open spec fn deep_view(&self) -> TokenView {
        self.view()
    }
}

/// A character that may appear inside an atom or as a bracket: the printable,
/// non-whitespace ASCII range.
pub open spec fn is_graphic(c: char) -> bool {
    0x21 <= (c as u32) && (c as u32) <= 0x7e
}

/// The token emitted for a pending atom when a separator or bracket is
/// reached: nothing if no atom characters are pending.
pub open spec fn flush_pending(pending: Seq<char>) -> Seq<TokenView> {
    if pending.len() == 0 {
        Seq::empty()
    } else {
        seq![TokenView::Atom(pending)]
    }
}

/// The token sequence produced by scanning `text` left to right while the
/// characters in `pending` form an atom still being accumulated. Brackets
/// always emit their own token (flushing any pending atom first); other
/// printable characters extend the pending atom; everything else is a pure
/// separator.
pub open spec fn lex(text: Seq<char>, pending: Seq<char>) -> Seq<TokenView>
    decreases text.len(),
{
    if text.len() == 0 {
        flush_pending(pending)
    } else {
        let c = text[0];
        let rest = text.drop_first();
        if c == '(' {
            flush_pending(pending) + seq![TokenView::Open] + lex(rest, Seq::empty())
        } else if c == ')' {
            flush_pending(pending) + seq![TokenView::Close] + lex(rest, Seq::empty())
        } else if is_graphic(c) {
            lex(rest, pending.push(c))
        } else {
            flush_pending(pending) + lex(rest, Seq::empty())
        }
    }
}

fn graphic_char(c: char) -> (b: bool)
    ensures
        b == is_graphic(c),
{
    let u = c as u32;
    0x21 <= u && u <= 0x7e
}

/// Lexes `text` into its token sequence. Total: every input has a
/// well-defined (possibly empty) token sequence; bracket balance is not
/// checked here.
pub fn to_tokens(text: &str) -> (tokens: Vec<Token>)
    ensures
        tokens.deep_view() == lex(text@, Seq::empty()),
{
    let n = text.unicode_len();
    let mut tokens: Vec<Token> = Vec::new();
    let mut start: usize = 0;
    let mut i: usize = 0;
    proof {
        assert(text@.subrange(0, n as int) =~= text@);
        assert(text@.subrange(0, 0) =~= Seq::<char>::empty());
        assert(tokens.deep_view() =~= Seq::<TokenView>::empty());
    }
    while i < n
        invariant
            n == text@.len(),
            start <= i <= n,
            tokens.deep_view() + lex(
                text@.subrange(i as int, n as int),
                text@.subrange(start as int, i as int),
            ) == lex(text@, Seq::empty()),
        decreases n - i,
    {
        let ghost t = text@;
        let ghost rest0 = t.subrange(i as int, n as int);
        let ghost pending0 = t.subrange(start as int, i as int);
        let ghost prev = tokens.deep_view();
        let c = text.get_char(i);
        proof {
            assert(rest0[0] == c);
            assert(rest0.drop_first() =~= t.subrange(i as int + 1, n as int));
        }
        let is_bracket = c == '(' || c == ')';
        if is_bracket || !graphic_char(c) {
            if start < i {
                let atom_text = text.substring_char(start, i).to_owned();
                tokens.push(Token::Atom(atom_text));
            }
            proof {
                assert(tokens.deep_view() =~= prev + flush_pending(pending0));
            }
            let ghost flushed = tokens.deep_view();
            if c == '(' {
                tokens.push(Token::OpenBracket);
                proof {
                    assert(tokens.deep_view() =~= flushed + seq![TokenView::Open]);
                }
            } else if c == ')' {
                tokens.push(Token::CloseBracket);
                proof {
                    assert(tokens.deep_view() =~= flushed + seq![TokenView::Close]);
                }
            }
            proof {
                assert(t.subrange(i as int + 1, i as int + 1) =~= Seq::<char>::empty());
                assert(tokens.deep_view() + lex(t.subrange(i as int + 1, n as int), Seq::empty())
                    =~= prev + lex(rest0, pending0));
            }
            start = i + 1;
        } else {
            proof {
                assert(pending0.push(c) =~= t.subrange(start as int, i as int + 1));
                assert(lex(rest0, pending0) == lex(t.subrange(i as int + 1, n as int), pending0.push(c)));
            }
        }
        i += 1;
    }
    proof {
        assert(text@.subrange(n as int, n as int) =~= Seq::<char>::empty());
    }
    if start < n {
        let ghost prev = tokens.deep_view();
        let atom_text = text.substring_char(start, n).to_owned();
        tokens.push(Token::Atom(atom_text));
        proof {
            assert(tokens.deep_view() =~= prev + flush_pending(
                text@.subrange(start as int, n as int),
            ));
        }
    } else {
        proof {
            assert(tokens.deep_view() =~= tokens.deep_view() + flush_pending(
                text@.subrange(start as int, n as int),
            ));
        }
    }
    tokens
}

/// Whether the token sequence is exactly one atom token.
pub open spec fn is_atom_tokens(toks: Seq<TokenView>) -> bool {
    toks.len() == 1 && toks[0] is Atom
}

/// The bracket nesting depth just before position `i`: opens minus closes
/// among the first `i` tokens.
pub open spec fn depth_at(toks: Seq<TokenView>, i: int) -> int
    decreases i,
{
    if i <= 0 {
        0
    } else {
        depth_at(toks, i - 1) + (match toks[i - 1] {
            TokenView::Open => 1int,
            TokenView::Close => -1int,
            TokenView::Atom(_) => 0int,
        })
    }
}

/// Whether the token sequence forms a single bracketed list: the nesting
/// depth never goes negative and ends at zero, at least one open bracket
/// occurs, and no atom stands outside the outermost brackets.
pub open spec fn is_list_tokens(toks: Seq<TokenView>) -> bool {
    &&& forall|j: int| 0 <= j <= toks.len() ==> depth_at(toks, j) >= 0
    &&& depth_at(toks, toks.len() as int) == 0
    &&& exists|j: int| 0 <= j < toks.len() && toks[j] is Open
    &&& forall|j: int| 0 <= j < toks.len() && toks[j] is Atom ==> depth_at(toks, j) >= 1
}

/// Whether the tokens are exactly one atom.
pub fn is_atom(tokens: &Vec<Token>) -> (r: bool)
    ensures
        r == is_atom_tokens(tokens.deep_view()),
{
    if tokens.len() != 1 {
        return false;
    }
    match &tokens[0] {
        Token::Atom(_) => true,
        _ => false,
    }
}

/// Whether the tokens form a single balanced bracketed list, with no atom
/// outside the outermost brackets.
pub fn is_list(tokens: &Vec<Token>) -> (r: bool)
    ensures
        r == is_list_tokens(tokens.deep_view()),
{
    let ghost toks = tokens.deep_view();
    let n = tokens.len();
    let mut depth: usize = 0;
    let mut has_open = false;
    let mut i: usize = 0;
    while i < n
        invariant
            toks == tokens.deep_view(),
            n == tokens.len(),
            toks.len() == n,
            i <= n,
            depth <= i,
            depth == depth_at(toks, i as int),
            forall|j: int| 0 <= j <= i ==> depth_at(toks, j) >= 0,
            has_open == exists|j: int| 0 <= j < i && toks[j] is Open,
            forall|j: int| 0 <= j < i && toks[j] is Atom ==> depth_at(toks, j) >= 1,
        decreases n - i,
    {
        match &tokens[i] {
            Token::OpenBracket => {
                depth += 1;
                has_open = true;
            },
            Token::CloseBracket => {
                if depth == 0 {
                    proof {
                        assert(depth_at(toks, i as int + 1) == -1);
                    }
                    return false;
                }
                depth -= 1;
            },
            Token::Atom(_) => {
                if depth == 0 {
                    return false;
                }
            },
        }
        i += 1;
    }
    depth == 0 && has_open
}

/// Whether the tokens form a single s-expression: one atom or one list.
pub fn is_s_exp(tokens: &Vec<Token>) -> (r: bool)
    ensures
        r == (is_atom_tokens(tokens.deep_view()) || is_list_tokens(tokens.deep_view())),
{
    is_atom(tokens) || is_list(tokens)
}

/// The characters that the tokens themselves carry, in order: each atom's
/// text, and one bracket character per bracket token.
pub open spec fn token_chars(toks: Seq<TokenView>) -> Seq<char>
    decreases toks.len(),
{
    if toks.len() == 0 {
        Seq::empty()
    } else {
        (match toks[0] {
            TokenView::Open => seq!['('],
            TokenView::Close => seq![')'],
            TokenView::Atom(s) => s,
        }) + token_chars(toks.drop_first())
    }
}

/// The printable, non-whitespace characters of `text`, in order.
pub open spec fn graphic_chars(text: Seq<char>) -> Seq<char>
    decreases text.len(),
{
    if text.len() == 0 {
        Seq::empty()
    } else {
        (if is_graphic(text[0]) {
            seq![text[0]]
        } else {
            Seq::empty()
        }) + graphic_chars(text.drop_first())
    }
}

proof fn lemma_token_chars_app(a: Seq<TokenView>, b: Seq<TokenView>)
    ensures
        token_chars(a + b) == token_chars(a) + token_chars(b),
    decreases a.len(),
{
    if a.len() == 0 {
        assert(a + b =~= b);
        assert(token_chars(a) + token_chars(b) =~= token_chars(b));
    } else {
        lemma_token_chars_app(a.drop_first(), b);
        assert((a + b).drop_first() =~= a.drop_first() + b);
        assert((a + b)[0] == a[0]);
        assert(token_chars(a + b) =~= token_chars(a) + token_chars(b));
    }
}

proof fn lemma_lex_chars(text: Seq<char>, pending: Seq<char>)
    ensures
        token_chars(lex(text, pending)) == pending + graphic_chars(text),
    decreases text.len(),
{
    if text.len() == 0 {
        if pending.len() == 0 {
            assert(token_chars(lex(text, pending)) =~= pending + graphic_chars(text));
        } else {
            let toks = lex(text, pending);
            assert(toks == seq![TokenView::Atom(pending)]);
            assert(toks.drop_first() =~= Seq::<TokenView>::empty());
            assert(token_chars(toks.drop_first()) =~= Seq::<char>::empty());
            assert(token_chars(toks) =~= pending + graphic_chars(text));
        }
    } else {
        let c = text[0];
        let rest = text.drop_first();
        lemma_lex_chars(rest, Seq::empty());
        lemma_lex_chars(rest, pending.push(c));
        if c == '(' {
            lemma_token_chars_app(flush_pending(pending) + seq![TokenView::Open], lex(rest, Seq::empty()));
            lemma_token_chars_app(flush_pending(pending), seq![TokenView::Open]);
            let sb = seq![TokenView::Open];
            assert(sb.drop_first() =~= Seq::<TokenView>::empty());
            assert(token_chars(sb.drop_first()) =~= Seq::<char>::empty());
            assert(token_chars(sb) =~= seq!['(']);
            lemma_flush_chars(pending);
            assert(token_chars(lex(text, pending)) =~= pending + graphic_chars(text));
        } else if c == ')' {
            lemma_token_chars_app(flush_pending(pending) + seq![TokenView::Close], lex(rest, Seq::empty()));
            lemma_token_chars_app(flush_pending(pending), seq![TokenView::Close]);
            let sb = seq![TokenView::Close];
            assert(sb.drop_first() =~= Seq::<TokenView>::empty());
            assert(token_chars(sb.drop_first()) =~= Seq::<char>::empty());
            assert(token_chars(sb) =~= seq![')']);
            lemma_flush_chars(pending);
            assert(token_chars(lex(text, pending)) =~= pending + graphic_chars(text));
        } else if is_graphic(c) {
            assert(pending.push(c) + graphic_chars(rest) =~= pending + graphic_chars(text));
        } else {
            lemma_token_chars_app(flush_pending(pending), lex(rest, Seq::empty()));
            lemma_flush_chars(pending);
            assert(token_chars(lex(text, pending)) =~= pending + graphic_chars(text));
        }
    }
}

proof fn lemma_flush_chars(pending: Seq<char>)
    ensures
        token_chars(flush_pending(pending)) == pending,
{
    if pending.len() == 0 {
        assert(token_chars(flush_pending(pending)) =~= pending);
    } else {
        let toks = flush_pending(pending);
        assert(toks.drop_first() =~= Seq::<TokenView>::empty());
        assert(token_chars(toks.drop_first()) =~= Seq::<char>::empty());
        assert(token_chars(toks) =~= pending);
    }
}

/// Law: lexing loses no printable character and invents none — the
/// characters carried by the tokens of `text`, in order, are exactly the
/// printable, non-whitespace characters of `text`, in order.
pub proof fn lemma_tokens_keep_graphic_chars(text: Seq<char>)
    ensures
        token_chars(lex(text, Seq::empty())) == graphic_chars(text),
{
    lemma_lex_chars(text, Seq::empty());
    assert(Seq::<char>::empty() + graphic_chars(text) =~= graphic_chars(text));
}

} // verus!
