//! The expression model: a recursive tagged value that is either an opaque
//! textual atom or an ordered list of child expressions, with its
//! mathematical view and the structural size measure used for termination.

use vstd::prelude::*;

verus! {

/// An s-expression: an opaque textual leaf, or an ordered list of child
/// expressions. Ownership is structural; clones are deep copies.
pub enum SExpression {
    Atom(String),
    List(Vec<SExpression>),
}

/// The mathematical model of an expression: atom text as a character
/// sequence, list children as a sequence of models.
pub enum SExpView {
    Atom(Seq<char>),
    List(Seq<SExpView>),
}

/// The model of an expression value.
pub open spec fn sexp_view(e: SExpression) -> SExpView
    decreases e,
{
    match e {
        SExpression::Atom(s) => SExpView::Atom(s@),
        SExpression::List(items) => SExpView::List(seq_sexp_view(items@)),
    }
}

/// The models of a sequence of expression values, in order.
pub open spec fn seq_sexp_view(s: Seq<SExpression>) -> Seq<SExpView>
    decreases s,
{
    if s.len() == 0 {
        Seq::empty()
    } else {
        seq_sexp_view(s.drop_last()).push(sexp_view(s.last()))
    }
}

impl View for SExpression {
    type V = SExpView;

    open spec fn view(&self) -> SExpView {
        sexp_view(*self)
    }
}

/// `seq_sexp_view` maps each element to its model, keeping length and order.
pub proof fn lemma_seq_view(s: Seq<SExpression>)
    ensures
        seq_sexp_view(s).len() == s.len(),
        forall|i: int| 0 <= i < s.len() ==> seq_sexp_view(s)[i] == sexp_view(s[i]),
    decreases s.len(),
{
    if s.len() > 0 {
        lemma_seq_view(s.drop_last());
    }
}

/// The number of atoms and lists in an expression, counting every level: at
/// least one, and strictly larger than the size of any subexpression.
pub open spec fn esize(e: SExpView) -> nat
    decreases e, 0int,
{
    match e {
        SExpView::Atom(_) => 1,
        SExpView::List(items) => 1 + essize_from(items, 0),
    }
}

/// The combined size of the elements of `items` from position `i` on.
pub open spec fn essize_from(items: Seq<SExpView>, i: int) -> nat
    decreases items, items.len() - i,
{
    if 0 <= i < items.len() {
        esize(items[i]) + essize_from(items, i + 1)
    } else {
        0
    }
}

proof fn lemma_esize_pos(e: SExpView)
    ensures
        esize(e) >= 1,
{
}

/// Peeling one element off the front of a size sum.
pub proof fn lemma_essize_from_next(items: Seq<SExpView>, i: int)
    requires
        0 <= i < items.len(),
    ensures
        essize_from(items, i) == esize(items[i]) + essize_from(items, i + 1),
        essize_from(items, i) >= 1 + essize_from(items, i + 1),
{
    lemma_esize_pos(items[i]);
}

/// Dropping elements from the front never grows the size sum.
pub proof fn lemma_essize_mono(items: Seq<SExpView>, i: int, j: int)
    requires
        0 <= i <= j,
    ensures
        essize_from(items, i) >= essize_from(items, j),
    decreases j - i,
{
    if i < j && i < items.len() {
        lemma_essize_from_next(items, i);
        lemma_essize_mono(items, i + 1, j);
    }
}

/// Every element from position `j` on is counted in the sum from `i <= j`,
/// along with at least one unit for each element in between.
pub proof fn lemma_essize_elem(items: Seq<SExpView>, i: int, j: int)
    requires
        0 <= i <= j < items.len(),
    ensures
        essize_from(items, i) >= esize(items[j]) + (j - i),
    decreases j - i,
{
    if i == j {
    } else {
        lemma_essize_elem(items, i + 1, j);
        lemma_esize_pos(items[i]);
    }
}

/// The model of an optional expression result.
pub open spec fn opt_sexp_view(r: Option<SExpression>) -> Option<SExpView> {
    match r {
        Some(e) => Some(sexp_view(e)),
        None => None,
    }
}

/// The text of the boolean-valued atoms produced by the classification
/// predicates of the evaluated language.
pub open spec fn bool_text(b: bool) -> Seq<char> {
    if b {
        "true"@
    } else {
        "false"@
    }
}

/// `head`: the first element of a non-empty list; an atom or an empty list
/// has none.
pub open spec fn car_spec(e: SExpView) -> Option<SExpView> {
    match e {
        SExpView::List(items) => if items.len() > 0 {
            Some(items[0])
        } else {
            None
        },
        SExpView::Atom(_) => None,
    }
}

/// `tail`: everything after the first element of a non-empty list; an atom
/// or an empty list has none.
pub open spec fn cdr_spec(e: SExpView) -> Option<SExpView> {
    match e {
        SExpView::List(items) => if items.len() > 0 {
            Some(SExpView::List(items.drop_first()))
        } else {
            None
        },
        SExpView::Atom(_) => None,
    }
}

/// `prepend`: `x` inserted at position 0 of a list; fails on an atom target.
pub open spec fn cons_spec(x: SExpView, y: SExpView) -> Option<SExpView> {
    match y {
        SExpView::List(items) => Some(SExpView::List(seq![x] + items)),
        SExpView::Atom(_) => None,
    }
}

/// `null?`: the atom `true` for an empty list, else the atom `false`.
pub open spec fn null_spec(e: SExpView) -> SExpView {
    match e {
        SExpView::List(items) => SExpView::Atom(bool_text(items.len() == 0)),
        SExpView::Atom(_) => SExpView::Atom(bool_text(false)),
    }
}

/// `atom?`: the atom `true` for an atom, else the atom `false`.
pub open spec fn atom_classify_spec(e: SExpView) -> SExpView {
    SExpView::Atom(bool_text(e is Atom))
}

/// The equality tested by `eq?`. Two atoms are equal when their text
/// matches. Two lists are reported equal when they have the same length and
/// *some* zipped pair of children is equal — an "any match" rather than an
/// "all match", kept deliberately as the behaviour of this evaluator even
/// though it is not structural equality in the conventional sense.
pub open spec fn eq_any_spec(a: SExpView, b: SExpView) -> bool
    decreases esize(a), 0int,
{
    match (a, b) {
        (SExpView::Atom(x), SExpView::Atom(y)) => x == y,
        (SExpView::List(x), SExpView::List(y)) => x.len() == y.len() && eq_zip_any(x, y, 0),
        _ => false,
    }
}

/// Whether some zipped pair of children from position `i` on is `eq?`-equal.
pub open spec fn eq_zip_any(x: Seq<SExpView>, y: Seq<SExpView>, i: int) -> bool
    decreases essize_from(x, i), x.len() - i,
{
    if 0 <= i < x.len() && i < y.len() {
        eq_any_spec(x[i], y[i]) || eq_zip_any(x, y, i + 1)
    } else {
        false
    }
}

/// `lat?`: the atom `true` for a list all of whose direct children are
/// atoms (the empty list counts), else the atom `false`.
pub open spec fn lat_spec(e: SExpView) -> SExpView {
    match e {
        SExpView::List(items) => SExpView::Atom(bool_text(all_atoms_from(items, 0))),
        SExpView::Atom(_) => SExpView::Atom(bool_text(false)),
    }
}

/// Whether every element from position `i` on is an atom.
pub open spec fn all_atoms_from(items: Seq<SExpView>, i: int) -> bool
    decreases items.len() - i,
{
    if 0 <= i < items.len() {
        items[i] is Atom && all_atoms_from(items, i + 1)
    } else {
        true
    }
}

/// Whether the expression is exactly the atom `true`.
pub open spec fn is_true_spec(e: SExpView) -> bool {
    match e {
        SExpView::Atom(s) => s == "true"@,
        SExpView::List(_) => false,
    }
}

/// Character-by-character string comparison, so that keyword dispatch rests
/// on a verified equality of the underlying character sequences.
pub fn text_is(s: &String, t: &str) -> (r: bool)
    ensures
        r == (s@ == t@),
{
    let a = s.as_str();
    let n = a.unicode_len();
    let m = t.unicode_len();
    if n != m {
        return false;
    }
    let mut i: usize = 0;
    while i < n
        invariant
            n == a@.len(),
            n == t@.len(),
            a@ == s@,
            i <= n,
            forall|j: int| 0 <= j < i ==> a@[j] == t@[j],
        decreases n - i,
    {
        if a.get_char(i) != t.get_char(i) {
            return false;
        }
        i += 1;
    }
    proof {
        assert(a@ =~= t@);
    }
    true
}

/// Builds the boolean-valued answer atom.
fn bool_atom(b: bool) -> (r: SExpression)
    ensures
        r@ == SExpView::Atom(bool_text(b)),
{
    if b {
        SExpression::Atom("true".to_owned())
    } else {
        SExpression::Atom("false".to_owned())
    }
}

/// A deep structural copy: the copy has the same model as the original.
pub fn clone_sexp(e: &SExpression) -> (r: SExpression)
    ensures
        r@ == e@,
    decreases esize(e@),
{
    match e {
        SExpression::Atom(s) => SExpression::Atom(s.clone()),
        SExpression::List(items) => {
            let ghost sv = seq_sexp_view(items@);
            proof {
                lemma_seq_view(items@);
            }
            let mut out: Vec<SExpression> = Vec::new();
            let mut i: usize = 0;
            while i < items.len()
                invariant
                    i <= items.len(),
                    sv == seq_sexp_view(items@),
                    sv.len() == items@.len(),
                    forall|j: int| 0 <= j < items@.len() ==> sv[j] == sexp_view(items@[j]),
                    e@ == SExpView::List(sv),
                    out@.len() == i,
                    forall|j: int| 0 <= j < i ==> sexp_view(out@[j]) == sv[j],
                decreases items.len() - i,
            {
                proof {
                    lemma_essize_elem(sv, 0, i as int);
                }
                let c = clone_sexp(&items[i]);
                out.push(c);
                i += 1;
            }
            proof {
                lemma_seq_view(out@);
                assert(seq_sexp_view(out@) =~= sv);
            }
            SExpression::List(out)
        },
    }
}

impl SExpression {
    /// `head` of a non-empty list; `None` for an atom or an empty list.
    pub fn car(&self) -> (r: Option<SExpression>)
        ensures
            opt_sexp_view(r) == car_spec(self@),
    {
        match self {
            SExpression::List(items) => {
                proof {
                    lemma_seq_view(items@);
                }
                if items.len() > 0 {
                    Some(clone_sexp(&items[0]))
                } else {
                    None
                }
            },
            SExpression::Atom(_) => None,
        }
    }

    /// `tail` of a non-empty list (possibly empty); `None` for an atom or an
    /// empty list.
    pub fn cdr(&self) -> (r: Option<SExpression>)
        ensures
            opt_sexp_view(r) == cdr_spec(self@),
    {
        match self {
            SExpression::List(items) => {
                let ghost sv = seq_sexp_view(items@);
                proof {
                    lemma_seq_view(items@);
                }
                if items.len() > 0 {
                    let mut out: Vec<SExpression> = Vec::new();
                    let mut i: usize = 1;
                    while i < items.len()
                        invariant
                            1 <= i <= items.len(),
                            sv == seq_sexp_view(items@),
                            sv.len() == items@.len(),
                            forall|j: int| 0 <= j < items@.len() ==> sv[j] == sexp_view(
                                items@[j],
                            ),
                            out@.len() == i - 1,
                            forall|j: int| 0 <= j < i - 1 ==> sexp_view(out@[j]) == sv[j + 1],
                        decreases items.len() - i,
                    {
                        let c = clone_sexp(&items[i]);
                        out.push(c);
                        i += 1;
                    }
                    proof {
                        lemma_seq_view(out@);
                        assert(seq_sexp_view(out@) =~= sv.drop_first());
                    }
                    Some(SExpression::List(out))
                } else {
                    None
                }
            },
            SExpression::Atom(_) => None,
        }
    }

    /// `prepend`: a new list with a copy of `self` at position 0 followed by
    /// the elements of `list`; `None` when `list` is an atom.
    pub fn cons(&self, list: &SExpression) -> (r: Option<SExpression>)
        ensures
            opt_sexp_view(r) == cons_spec(self@, list@),
    {
        match list {
            SExpression::List(items) => {
                let ghost sv = seq_sexp_view(items@);
                proof {
                    lemma_seq_view(items@);
                }
                let mut out: Vec<SExpression> = Vec::new();
                out.push(clone_sexp(self));
                let mut i: usize = 0;
                while i < items.len()
                    invariant
                        i <= items.len(),
                        sv == seq_sexp_view(items@),
                        sv.len() == items@.len(),
                        forall|j: int| 0 <= j < items@.len() ==> sv[j] == sexp_view(items@[j]),
                        out@.len() == i + 1,
                        sexp_view(out@[0]) == sexp_view(*self),
                        forall|j: int| 1 <= j < i + 1 ==> sexp_view(out@[j]) == sv[j - 1],
                    decreases items.len() - i,
                {
                    let c = clone_sexp(&items[i]);
                    out.push(c);
                    i += 1;
                }
                proof {
                    lemma_seq_view(out@);
                    assert(seq_sexp_view(out@) =~= seq![sexp_view(*self)] + sv);
                }
                Some(SExpression::List(out))
            },
            SExpression::Atom(_) => None,
        }
    }

    /// `null?` as a value of the evaluated language: the atom `true` or the
    /// atom `false`.
    pub fn is_null(&self) -> (r: SExpression)
        ensures
            r@ == null_spec(self@),
    {
        match self {
            SExpression::List(items) => {
                proof {
                    lemma_seq_view(items@);
                }
                bool_atom(items.len() == 0)
            },
            SExpression::Atom(_) => bool_atom(false),
        }
    }

    /// `quote`: a copy of the expression itself, never evaluated.
    pub fn quote(&self) -> (r: Option<SExpression>)
        ensures
            opt_sexp_view(r) == Some(self@),
    {
        Some(clone_sexp(self))
    }

    /// Whether the expression is an atom, as a host-language boolean.
    pub fn is_atom_(&self) -> (r: bool)
        ensures
            r == (self@ is Atom),
    {
        match self {
            SExpression::Atom(_) => true,
            SExpression::List(_) => false,
        }
    }

    /// `atom?` as a value of the evaluated language.
    pub fn is_atom(&self) -> (r: SExpression)
        ensures
            r@ == atom_classify_spec(self@),
    {
        bool_atom(self.is_atom_())
    }

    /// `eq?` as a value of the evaluated language: see [`eq_any_spec`] for
    /// the exact equality tested.
    pub fn is_eq(&self, other: &SExpression) -> (r: SExpression)
        ensures
            r@ == SExpView::Atom(bool_text(eq_any_spec(self@, other@))),
    {
        bool_atom(eq_exec(self, other))
    }

    /// `lat?` as a value of the evaluated language.
    pub fn is_lat(&self) -> (r: SExpression)
        ensures
            r@ == lat_spec(self@),
    {
        match self {
            SExpression::List(items) => {
                let ghost sv = seq_sexp_view(items@);
                proof {
                    lemma_seq_view(items@);
                }
                let mut i: usize = 0;
                let mut all = true;
                while i < items.len()
                    invariant
                        i <= items.len(),
                        sv == seq_sexp_view(items@),
                        sv.len() == items@.len(),
                        forall|j: int| 0 <= j < items@.len() ==> sv[j] == sexp_view(items@[j]),
                        all_atoms_from(sv, 0) == (all && all_atoms_from(sv, i as int)),
                    decreases items.len() - i,
                {
                    if !items[i].is_atom_() {
                        all = false;
                    }
                    i += 1;
                }
                bool_atom(all)
            },
            SExpression::Atom(_) => bool_atom(false),
        }
    }

    /// Whether the expression is exactly the atom `true`, as tested by
    /// `cond`.
    pub fn is_true(&self) -> (r: bool)
        ensures
            r == is_true_spec(self@),
    {
        match self {
            SExpression::Atom(s) => text_is(s, "true"),
            SExpression::List(_) => false,
        }
    }
}

/// Recursive worker for `eq?`.
fn eq_exec(a: &SExpression, b: &SExpression) -> (r: bool)
    ensures
        r == eq_any_spec(a@, b@),
    decreases esize(a@), 0int,
{
    match (a, b) {
        (SExpression::Atom(x), SExpression::Atom(y)) => text_is(x, y.as_str()),
        (SExpression::List(x), SExpression::List(y)) => {
            let ghost xv = seq_sexp_view(x@);
            let ghost yv = seq_sexp_view(y@);
            proof {
                lemma_seq_view(x@);
                lemma_seq_view(y@);
            }
            if x.len() != y.len() {
                return false;
            }
            let mut i: usize = 0;
            while i < x.len()
                invariant
                    i <= x.len(),
                    x.len() == y.len(),
                    xv == seq_sexp_view(x@),
                    yv == seq_sexp_view(y@),
                    xv.len() == x@.len(),
                    yv.len() == y@.len(),
                    forall|j: int| 0 <= j < x@.len() ==> xv[j] == sexp_view(x@[j]),
                    forall|j: int| 0 <= j < y@.len() ==> yv[j] == sexp_view(y@[j]),
                    a@ == SExpView::List(xv),
                    b@ == SExpView::List(yv),
                    eq_any_spec(a@, b@) == eq_zip_any(xv, yv, i as int),
                decreases x.len() - i,
            {
                proof {
                    lemma_essize_elem(xv, 0, i as int);
                }
                if eq_exec(&x[i], &y[i]) {
                    return true;
                }
                i += 1;
            }
            false
        },
        _ => false,
    }
}

} // verus!
