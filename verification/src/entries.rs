//! Single-token entry index: for every token, the multiset of tokens
//! observed directly after it.  Used only to pick a second token when
//! generation starts from a one-word seed.

use std::collections::HashMap;
use vstd::multiset::Multiset;
use vstd::prelude::*;

use crate::tokset::BufferTokSet;

verus! {

broadcast use vstd::std_specs::hash::group_hash_axioms;

/// The multiset recorded for token `k`, empty when `k` is unknown.
pub open spec fn ent_at(m: Map<u32, BufferTokSet>, k: u32) -> Multiset<u32> {
    if m.dom().contains(k) {
        m[k]@.to_multiset()
    } else {
        Multiset::empty()
    }
}

/// Index from a single token to the multiset of its observed successors.
#[derive(Debug)]
pub struct Entries {
    map: HashMap<u32, BufferTokSet>,
}

impl View for Entries {
    type V = Map<u32, BufferTokSet>;

    closed spec fn view(&self) -> Map<u32, BufferTokSet> {
        self.map@
    }
}

impl Entries {
    /// Every recorded multiset holds its invariant and at least one entry.
    pub open spec fn wf(&self) -> bool {
        forall|k: u32|
            self@.dom().contains(k) ==> (#[trigger] self@[k]).wf() && self@[k]@.len() > 0
    }

    /// An empty index.
    pub fn new() -> (r: Entries)
        ensures
            r.wf(),
            r@ == Map::<u32, BufferTokSet>::empty(),
    {
        Entries { map: HashMap::new() }
    }

    /// Number of tokens with at least one recorded successor.
    pub fn len(&self) -> (r: usize)
        ensures
            r == self@.dom().len(),
    {
        self.map.len()
    }

    /// Record one occurrence of `next` after `token`.  That token's
    /// multiset grows by exactly one occurrence; every other token's
    /// multiset is untouched.
    pub fn record(&mut self, token: u32, next: u32)
        requires
            old(self).wf(),
            next <= 0xFFFFFF,
        ensures
            final(self).wf(),
            final(self)@.dom() == old(self)@.dom().insert(token),
            ent_at(final(self)@, token) == ent_at(old(self)@, token).insert(next),
            forall|k2: u32|
                k2 != token && old(self)@.dom().contains(k2) ==> final(self)@[k2] == old(
                    self,
                )@[k2],
    {
        let ghost pre = self.map@;
        let mut tokset: BufferTokSet = match self.map.remove(&token) {
            Some(ts) => ts,
            None => BufferTokSet::new(),
        };
        let ghost had = pre.dom().contains(token);
        proof {
            assert(pre == old(self)@);
            if had {
                assert(old(self)@.dom().contains(token));
                assert(old(self)@[token].wf() && old(self)@[token]@.len() > 0);
                assert(tokset == pre[token]);
            }
        }
        let ghost base = tokset;
        tokset.add(next);
        self.map.insert(token, tokset);
        proof {
            broadcast use vstd::seq_lib::group_to_multiset_ensures;

            assert(self.map@ =~= pre.insert(token, tokset));
            assert(self@.dom() =~= pre.dom().insert(token));
            assert(self@[token] == tokset);
            assert(tokset@.to_multiset() == base@.to_multiset().insert(next));
            if !had {
                assert(base@.to_multiset().len() == 0);
                assert(base@.to_multiset() =~= Multiset::<u32>::empty());
            }
            assert forall|k: u32| self@.dom().contains(k) implies (#[trigger] self@[k]).wf()
                && self@[k]@.len() > 0 by {
                if k != token {
                    assert(pre.dom().contains(k));
                    assert(self@[k] == pre[k]);
                }
            }
        }
    }

    /// The successor multiset recorded for `token`, if any.
    pub fn get(&self, token: u32) -> (r: Option<&BufferTokSet>)
        ensures
            match r {
                Some(ts) => self@.dom().contains(token) && *ts == self@[token],
                None => !self@.dom().contains(token),
            },
    {
        self.map.get(&token)
    }
}

} // verus!
