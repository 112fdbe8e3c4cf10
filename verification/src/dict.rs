//! Token dictionary: the sole point of string interning.
//!
//! Distinct token strings get dense identifiers in first-seen order; the
//! identifier of a string is its insertion index, which never changes, so
//! the same structure answers both directions of the mapping.

use vstd::prelude::*;
use vstd::string::StringExecFns;

verus! {

/// Declaration of indexmap's insertion-ordered set, which stores the
/// canonical copy of every interned token string.
#[verifier::external_type_specification]
#[verifier::external_body]
#[verifier::reject_recursive_types(T)]
#[verifier::reject_recursive_types(S)]
pub struct ExIndexSet<T, S>(indexmap::IndexSet<T, S>);

/// The strings held by an interning set, in insertion order.
pub uninterp spec fn interned(s: indexmap::IndexSet<String>) -> Seq<Seq<char>>;

/// Relies on `IndexSet::new`: the empty set.
#[verifier::external_body]
fn strings_new() -> (r: indexmap::IndexSet<String>)
    ensures
        interned(r) == Seq::<Seq<char>>::empty(),
{
    indexmap::IndexSet::new()
}

/// Relies on `IndexSet::len`: the number of items.
#[verifier::external_body]
fn strings_len(s: &indexmap::IndexSet<String>) -> (r: usize)
    ensures
        r == interned(*s).len(),
{
    s.len()
}

/// Relies on `IndexSet::get_index_of`: the index of an equivalent item if
/// one is present, and nothing otherwise.
#[verifier::external_body]
fn strings_index_of(s: &indexmap::IndexSet<String>, token: &str) -> (r: Option<usize>)
    ensures
        match r {
            Some(i) => i < interned(*s).len() && interned(*s)[i as int] == token@,
            None => forall|j: int| 0 <= j < interned(*s).len() ==> interned(*s)[j] != token@,
        },
{
    s.get_index_of(token)
}

/// Relies on `IndexSet::insert_full`: appends a new item at the end and
/// reports its index, or returns the index of the equivalent existing item
/// without altering the set.
#[verifier::external_body]
fn strings_insert_full(s: &mut indexmap::IndexSet<String>, token: String) -> (r: (usize, bool))
    ensures
        r.1 ==> interned(*final(s)) == interned(*old(s)).push(token@) && r.0 == interned(
            *old(s),
        ).len(),
        !r.1 ==> interned(*final(s)) == interned(*old(s)) && r.0 < interned(*old(s)).len()
            && interned(*old(s))[r.0 as int] == token@,
{
    s.insert_full(token)
}

/// Relies on `IndexSet::get_index`: the item at an insertion index, if the
/// index is in range.
#[verifier::external_body]
fn strings_get_index<'a>(s: &'a indexmap::IndexSet<String>, index: usize) -> (r: Option<
    &'a String,
>)
    ensures
        match r {
            Some(w) => index < interned(*s).len() && w@ == interned(*s)[index as int],
            None => index >= interned(*s).len(),
        },
{
    s.get_index(index)
}

/// Whether some entry of a dictionary model equals `w`.
pub open spec fn spec_has(d: Seq<Seq<char>>, w: Seq<char>) -> bool {
    exists|j: int| 0 <= j < d.len() && d[j] == w
}

/// The index of `w` in a dictionary model.
pub open spec fn spec_id(d: Seq<Seq<char>>, w: Seq<char>) -> int {
    choose|j: int| 0 <= j < d.len() && d[j] == w
}

/// No string appears twice in the dictionary model.
pub open spec fn dict_distinct(d: Seq<Seq<char>>) -> bool {
    forall|i: int, j: int| 0 <= i < d.len() && 0 <= j < d.len() && i != j ==> d[i] != d[j]
}

/// Bidirectional mapping between token strings and dense identifiers.
#[derive(Debug)]
pub struct Dict {
    entries: indexmap::IndexSet<String>,
}

impl View for Dict {
    type V = Seq<Seq<char>>;

    closed spec fn view(&self) -> Seq<Seq<char>> {
        interned(self.entries)
    }
}

impl Dict {
    /// No string appears twice, so an index determines its string and a
    /// string its index.
    pub open spec fn wf(&self) -> bool {
        dict_distinct(self@)
    }

    /// An empty dictionary.
    pub fn new() -> (r: Dict)
        ensures
            r.wf(),
            r@ == Seq::<Seq<char>>::empty(),
    {
        Dict { entries: strings_new() }
    }

    /// Number of interned strings; also the next identifier to be assigned.
    pub fn len(&self) -> (r: usize)
        ensures
            r == self@.len(),
    {
        strings_len(&self.entries)
    }

    /// Intern `token`: return its identifier if it is known, otherwise
    /// assign the next sequential identifier and record the mapping.
    pub fn tokid(&mut self, token: &str) -> (r: u32)
        requires
            old(self).wf(),
            old(self)@.len() < 0xFFFF_FFFF,
        ensures
            final(self).wf(),
            r < final(self)@.len(),
            final(self)@[r as int] == token@,
            r as int == spec_id(final(self)@, token@),
            spec_has(old(self)@, token@) ==> final(self)@ == old(self)@,
            !spec_has(old(self)@, token@) ==> final(self)@ == old(self)@.push(token@) && r
                == old(self)@.len(),
    {
        match strings_index_of(&self.entries, token) {
            Some(u) => {
                proof {
                    lemma_id_of_entry(self@, u as int);
                }
                u as u32
            },
            None => {
                let owned: String = String::from_str(token);
                let r = strings_insert_full(&mut self.entries, owned);
                proof {
                    assert(r.1);
                    assert forall|i: int, j: int|
                        0 <= i < self@.len() && 0 <= j < self@.len() && i != j implies self@[i]
                        != self@[j] by {
                        if i < self@.len() - 1 && j < self@.len() - 1 {
                            assert(old(self)@[i] != old(self)@[j]);
                        }
                    }
                    lemma_id_of_entry(self@, r.0 as int);
                }
                r.0 as u32
            },
        }
    }

    /// Look up `token` without interning it: seed words never seen during
    /// ingestion must fail, not be silently added.
    pub fn get_tokid(&self, token: &str) -> (r: Option<u32>)
        requires
            self.wf(),
            self@.len() < 0xFFFF_FFFF,
        ensures
            match r {
                Some(id) => id < self@.len() && self@[id as int] == token@ && id as int
                    == spec_id(self@, token@),
                None => !spec_has(self@, token@),
            },
    {
        match strings_index_of(&self.entries, token) {
            Some(u) => {
                proof {
                    lemma_id_of_entry(self@, u as int);
                }
                Some(u as u32)
            },
            None => None,
        }
    }

    /// Inverse lookup: the string a valid identifier stands for.
    pub fn entry(&self, token_id: u32) -> (r: Option<String>)
        ensures
            match r {
                Some(w) => token_id < self@.len() && w@ == self@[token_id as int],
                None => token_id >= self@.len(),
            },
    {
        match strings_get_index(&self.entries, token_id as usize) {
            Some(w) => Some(w.clone()),
            None => None,
        }
    }
}

/// A valid identifier names its word: the identifier of entry `i` is `i`.
pub proof fn lemma_id_of_entry(d: Seq<Seq<char>>, i: int)
    requires
        dict_distinct(d),
        0 <= i < d.len(),
    ensures
        spec_has(d, d[i]),
        spec_id(d, d[i]) == i,
{
    assert(0 <= i < d.len() && d[i] == d[i]);
    let j = spec_id(d, d[i]);
    assert(0 <= j < d.len() && d[j] == d[i]);
    if j != i {
        assert(d[j] != d[i]);
    }
}

/// Interning is injective: under the dictionary invariant, equal strings
/// at two identifiers force the identifiers to be equal, so interning the
/// same string twice yields the same identifier and distinct strings get
/// distinct identifiers.
pub proof fn lemma_dict_injective(d: Dict, i: int, j: int)
    requires
        d.wf(),
        0 <= i < d@.len(),
        0 <= j < d@.len(),
        d@[i] == d@[j],
    ensures
        i == j,
{
}

} // verus!
