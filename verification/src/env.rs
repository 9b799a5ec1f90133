//! The binding environment: a mutable mapping from symbol name to
//! expression, established by `define` and consulted when atoms are
//! evaluated or printed.

use crate::sexp::{sexp_view, text_is, SExpView, SExpression};
use vstd::prelude::*;

verus! {

/// A mapping from atom text to expression. Insertion overwrites: the model
/// is a map, and later bindings for the same name shadow earlier ones.
pub struct Environment {
    entries: Vec<(String, SExpression)>,
}

/// The map modelled by a sequence of bindings, in insertion order, later
/// bindings shadowing earlier ones.
pub open spec fn entries_map(s: Seq<(String, SExpression)>) -> Map<Seq<char>, SExpView>
    decreases s,
{
    if s.len() == 0 {
        Map::empty()
    } else {
        entries_map(s.drop_last()).insert(s.last().0@, sexp_view(s.last().1))
    }
}

impl View for Environment {
    type V = Map<Seq<char>, SExpView>;

    closed spec fn view(&self) -> Map<Seq<char>, SExpView> {
        entries_map(self.entries@)
    }
}

impl Environment {
    /// An empty environment, holding no bindings.
    pub fn new() -> (r: Environment)
        ensures
            r@ == Map::<Seq<char>, SExpView>::empty(),
    {
        Environment { entries: Vec::new() }
    }

    /// Binds `key` to `value`, overwriting any earlier binding for `key`.
    pub fn insert(&mut self, key: String, value: SExpression)
        ensures
            final(self)@ == old(self)@.insert(key@, value@),
    {
        let ghost prev = self.entries@;
        self.entries.push((key, value));
        proof {
            assert(self.entries@.drop_last() =~= prev);
        }
    }

    /// The expression bound to `key`, or `None` when `key` is unbound.
    pub fn get(&self, key: &String) -> (r: Option<&SExpression>)
        ensures
            match r {
                Some(v) => self@.contains_key(key@) && v@ == self@[key@],
                None => !self@.contains_key(key@),
            },
    {
        proof {
            assert(self.entries@.take(self.entries@.len() as int) =~= self.entries@);
        }
        let mut i: usize = self.entries.len();
        while i > 0
            invariant
                i <= self.entries.len(),
                self@.contains_key(key@) == entries_map(
                    self.entries@.take(i as int),
                ).contains_key(key@),
                self@.contains_key(key@) ==> self@[key@] == entries_map(
                    self.entries@.take(i as int),
                )[key@],
            decreases i,
    {
            i -= 1;
            proof {
                assert(self.entries@.take(i as int + 1).drop_last() =~= self.entries@.take(
                    i as int,
                ));
                assert(self.entries@.take(i as int + 1).last() == self.entries@[i as int]);
            }
            let kv = &self.entries[i];
            if text_is(&kv.0, key.as_str()) {
                return Some(&kv.1);
            }
        }
        proof {
            assert(self.entries@.take(0) =~= Seq::<(String, SExpression)>::empty());
        }
        None
    }
}

} // verus!
