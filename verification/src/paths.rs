//! Bidirectional transition index over bigram contexts.
//!
//! For every ordered pair of consecutive tokens the index stores the
//! multiset of tokens observed immediately after the pair and the multiset
//! of tokens observed immediately before it.  A walk repeatedly samples
//! from the current context's multiset and shifts the context by the
//! sampled token, forward or backward.

use std::collections::HashMap;
use vstd::multiset::Multiset;
use vstd::prelude::*;

use crate::tokset::BufferTokSet;
use crate::tokset::TokSet;

verus! {

broadcast use vstd::std_specs::hash::group_hash_axioms;

/// Direction of a walk through the transition index.
#[derive(Clone, Copy, Debug)]
pub enum Direction {
    /// Sample successors; the context shifts towards the end of a line.
    Forward,
    /// Sample predecessors; the context shifts towards the start.
    Reverse,
}

/// The two distributions recorded for one bigram context.
#[derive(Debug)]
pub struct NextTokens {
    /// Tokens observed immediately after the context.
    pub forward: BufferTokSet,
    /// Tokens observed immediately before the context.
    pub reverse: BufferTokSet,
}

impl NextTokens {
    /// Both distributions hold their encoding invariant.
    pub open spec fn wf(&self) -> bool {
        self.forward.wf() && self.reverse.wf()
    }

    /// A context entry with nothing recorded yet.
    pub fn new() -> (r: NextTokens)
        ensures
            r.wf(),
            r.forward@ == Seq::<u32>::empty(),
            r.reverse@ == Seq::<u32>::empty(),
    {
        NextTokens { forward: BufferTokSet::new(), reverse: BufferTokSet::new() }
    }
}

/// One map key for the ordered pair `(a, b)`.
pub open spec fn spec_pack(a: u32, b: u32) -> u64 {
    (a * 0x1_0000_0000 + b) as u64
}

/// Pack a bigram context into a single map key.
pub fn pack(a: u32, b: u32) -> (r: u64)
    ensures
        r == spec_pack(a, b),
{
    (a as u64) * 0x1_0000_0000u64 + (b as u64)
}

/// Packing is injective: a key determines its context.
pub proof fn lemma_pack_injective(a: u32, b: u32, c: u32, d: u32)
    requires
        spec_pack(a, b) == spec_pack(c, d),
    ensures
        a == c,
        b == d,
{
    assert(a * 0x1_0000_0000 + b == c * 0x1_0000_0000 + d) by (nonlinear_arith)
        requires
            spec_pack(a, b) == spec_pack(c, d),
            a <= 0xFFFF_FFFFu32,
            b <= 0xFFFF_FFFFu32,
            c <= 0xFFFF_FFFFu32,
            d <= 0xFFFF_FFFFu32,
    ;
}

/// The forward multiset recorded at key `k`, empty when `k` is unknown.
pub open spec fn fwd_at(m: Map<u64, NextTokens>, k: u64) -> Multiset<u32> {
    if m.dom().contains(k) {
        m[k].forward@.to_multiset()
    } else {
        Multiset::empty()
    }
}

/// The reverse multiset recorded at key `k`, empty when `k` is unknown.
pub open spec fn rev_at(m: Map<u64, NextTokens>, k: u64) -> Multiset<u32> {
    if m.dom().contains(k) {
        m[k].reverse@.to_multiset()
    } else {
        Multiset::empty()
    }
}

/// The tokens a walk in direction `dir` samples from at one entry.
pub open spec fn dir_elems(ts: NextTokens, dir: Direction) -> Seq<u32> {
    match dir {
        Direction::Forward => ts.forward@,
        Direction::Reverse => ts.reverse@,
    }
}

/// The context reached after emitting `t` from context `p`.
pub open spec fn spec_advance(dir: Direction, p: (u32, u32), t: u32) -> (u32, u32) {
    match dir {
        Direction::Forward => (p.1, t),
        Direction::Reverse => (t, p.0),
    }
}

/// Whether `toks` is a sequence the index can emit step by step from
/// context `p`: each token is drawn from the current context's multiset
/// and the context then shifts by it.
pub open spec fn valid_walk(
    m: Map<u64, NextTokens>,
    dir: Direction,
    p: (u32, u32),
    toks: Seq<u32>,
) -> bool
    decreases toks.len(),
{
    toks.len() == 0 || {
        let k = spec_pack(p.0, p.1);
        &&& m.dom().contains(k)
        &&& dir_elems(m[k], dir).contains(toks[0])
        &&& valid_walk(m, dir, spec_advance(dir, p, toks[0]), toks.drop_first())
    }
}

/// The context reached after emitting all of `toks` from `p`.
pub open spec fn end_prefix(dir: Direction, p: (u32, u32), toks: Seq<u32>) -> (u32, u32)
    decreases toks.len(),
{
    if toks.len() == 0 {
        p
    } else {
        end_prefix(dir, spec_advance(dir, p, toks[0]), toks.drop_first())
    }
}

/// A valid walk stays valid when one more token is drawn at its end.
pub proof fn lemma_walk_snoc(
    m: Map<u64, NextTokens>,
    dir: Direction,
    p: (u32, u32),
    toks: Seq<u32>,
    t: u32,
)
    requires
        valid_walk(m, dir, p, toks),
        m.dom().contains(spec_pack(end_prefix(dir, p, toks).0, end_prefix(dir, p, toks).1)),
        dir_elems(m[spec_pack(end_prefix(dir, p, toks).0, end_prefix(dir, p, toks).1)],
            dir).contains(t),
    ensures
        valid_walk(m, dir, p, toks.push(t)),
        end_prefix(dir, p, toks.push(t)) == spec_advance(dir, end_prefix(dir, p, toks), t),
    decreases toks.len(),
{
    if toks.len() == 0 {
        assert(end_prefix(dir, p, toks) == p);
        assert(toks.push(t)[0] == t);
        assert(toks.push(t).drop_first() =~= Seq::<u32>::empty());
        assert(valid_walk(m, dir, spec_advance(dir, p, t), Seq::<u32>::empty()));
        assert(end_prefix(dir, spec_advance(dir, p, t), Seq::<u32>::empty()) == spec_advance(
            dir,
            p,
            t,
        ));
    } else {
        assert(toks.push(t)[0] == toks[0]);
        assert(toks.push(t).drop_first() =~= toks.drop_first().push(t));
        assert(end_prefix(dir, p, toks) == end_prefix(
            dir,
            spec_advance(dir, p, toks[0]),
            toks.drop_first(),
        ));
        lemma_walk_snoc(m, dir, spec_advance(dir, p, toks[0]), toks.drop_first(), t);
        assert(valid_walk(m, dir, spec_advance(dir, p, toks[0]), toks.push(t).drop_first()));
    }
}

/// Why a walk may stop before its cut-off: the context it reached is
/// unseen, or that context's multiset can yield the stopping token.
pub open spec fn walk_stopped(
    m: Map<u64, NextTokens>,
    dir: Direction,
    start: (u32, u32),
    toks: Seq<u32>,
    sentinel: u32,
) -> bool {
    let e = end_prefix(dir, start, toks);
    let k = spec_pack(e.0, e.1);
    !m.dom().contains(k) || dir_elems(m[k], dir).contains(sentinel)
}

/// Every element of `s` lies below `bound`.
pub open spec fn seq_bounded(s: Seq<u32>, bound: int) -> bool {
    forall|i: int| 0 <= i < s.len() ==> s[i] < bound
}

/// Every multiset of the index holds only identifiers below `bound`.
pub open spec fn sets_bounded(m: Map<u64, NextTokens>, bound: int) -> bool {
    forall|k: u64|
        m.dom().contains(k) ==> {
            &&& seq_bounded((#[trigger] m[k]).forward@, bound)
            &&& seq_bounded(m[k].reverse@, bound)
        }
}

/// Tokens of a valid walk all come out of the index's multisets, so a
/// bound on those multisets bounds every emitted token.
pub proof fn lemma_walk_bounded(
    m: Map<u64, NextTokens>,
    dir: Direction,
    p: (u32, u32),
    toks: Seq<u32>,
    bound: int,
)
    requires
        valid_walk(m, dir, p, toks),
        sets_bounded(m, bound),
    ensures
        forall|i: int| 0 <= i < toks.len() ==> toks[i] < bound,
    decreases toks.len(),
{
    if toks.len() > 0 {
        let k = spec_pack(p.0, p.1);
        let ghost e = dir_elems(m[k], dir);
        assert(e.contains(toks[0]));
        let ghost w = choose|j: int| 0 <= j < e.len() && e[j] == toks[0];
        assert(toks[0] < bound);
        lemma_walk_bounded(m, dir, spec_advance(dir, p, toks[0]), toks.drop_first(), bound);
        assert forall|i: int| 0 <= i < toks.len() implies toks[i] < bound by {
            if i > 0 {
                assert(toks.drop_first()[i - 1] == toks[i]);
            }
        }
    }
}

/// Transition index: a flat map from packed bigram contexts to the pair
/// of distributions recorded for that context.
#[derive(Debug)]
pub struct TokenPaths {
    maps: HashMap<u64, NextTokens>,
}

impl View for TokenPaths {
    type V = Map<u64, NextTokens>;

    closed spec fn view(&self) -> Map<u64, NextTokens> {
        self.maps@
    }
}

impl TokenPaths {
    /// Every recorded entry holds its invariant and records at least one
    /// observation in each direction.
    pub open spec fn wf(&self) -> bool {
        forall|k: u64|
            self@.dom().contains(k) ==> {
                &&& (#[trigger] self@[k]).wf()
                &&& self@[k].forward@.len() > 0
                &&& self@[k].reverse@.len() > 0
            }
    }

    /// An empty index.
    pub fn new() -> (r: TokenPaths)
        ensures
            r.wf(),
            r@ == Map::<u64, NextTokens>::empty(),
    {
        TokenPaths { maps: HashMap::new() }
    }

    /// Number of recorded contexts.
    pub fn len(&self) -> (r: usize)
        ensures
            r == self@.dom().len(),
    {
        self.maps.len()
    }

    /// Record one observed window: `forward_value` follows the context and
    /// `reverse_value` precedes it.  Both multisets of the context grow by
    /// exactly one occurrence; every other context is untouched.
    pub fn append(&mut self, prefix: (u32, u32), forward_value: u32, reverse_value: u32)
        requires
            old(self).wf(),
            forward_value <= 0xFFFFFF,
            reverse_value <= 0xFFFFFF,
        ensures
            final(self).wf(),
            final(self)@.dom() == old(self)@.dom().insert(spec_pack(prefix.0, prefix.1)),
            fwd_at(final(self)@, spec_pack(prefix.0, prefix.1)) == fwd_at(
                old(self)@,
                spec_pack(prefix.0, prefix.1),
            ).insert(forward_value),
            rev_at(final(self)@, spec_pack(prefix.0, prefix.1)) == rev_at(
                old(self)@,
                spec_pack(prefix.0, prefix.1),
            ).insert(reverse_value),
            forall|k2: u64|
                k2 != spec_pack(prefix.0, prefix.1) && old(self)@.dom().contains(k2)
                    ==> final(self)@[k2] == old(self)@[k2],
    {
        let key: u64 = pack(prefix.0, prefix.1);
        let ghost pre = self.maps@;
        let mut toksets: NextTokens = match self.maps.remove(&key) {
            Some(ts) => ts,
            None => NextTokens::new(),
        };
        let ghost had = pre.dom().contains(key);
        proof {
            assert(pre == old(self)@);
            if had {
                assert(old(self)@.dom().contains(key));
                assert(old(self)@[key].wf() && old(self)@[key].forward@.len() > 0 && old(
                    self,
                )@[key].reverse@.len() > 0);
                assert(toksets == pre[key]);
            }
        }
        let ghost base = toksets;
        toksets.forward.add(forward_value);
        toksets.reverse.add(reverse_value);
        self.maps.insert(key, toksets);
        proof {
            broadcast use vstd::seq_lib::group_to_multiset_ensures;

            assert(self.maps@ =~= pre.insert(key, toksets));
            assert(self@.dom() =~= pre.dom().insert(key));
            assert(self@[key] == toksets);
            assert(toksets.forward@.to_multiset() == base.forward@.to_multiset().insert(
                forward_value,
            ));
            assert(toksets.reverse@.to_multiset() == base.reverse@.to_multiset().insert(
                reverse_value,
            ));
            if !had {
                assert(base.forward@.to_multiset().len() == 0);
                assert(base.forward@.to_multiset() =~= Multiset::<u32>::empty());
                assert(base.reverse@.to_multiset() =~= Multiset::<u32>::empty());
            }
            assert forall|k: u64| self@.dom().contains(k) implies {
                &&& (#[trigger] self@[k]).wf()
                &&& self@[k].forward@.len() > 0
                &&& self@[k].reverse@.len() > 0
            } by {
                if k != key {
                    assert(pre.dom().contains(k));
                    assert(self@[k] == pre[k]);
                }
            }
        }
    }

    /// The entry recorded for a context, if any.
    pub fn get(&self, prefix: (u32, u32)) -> (r: Option<&NextTokens>)
        ensures
            match r {
                Some(ts) => self@.dom().contains(spec_pack(prefix.0, prefix.1)) && *ts == self@[
                    spec_pack(prefix.0, prefix.1)
                ],
                None => !self@.dom().contains(spec_pack(prefix.0, prefix.1)),
            },
    {
        let key: u64 = pack(prefix.0, prefix.1);
        self.maps.get(&key)
    }

    /// Walk the index from `start`, sampling one token per step, until the
    /// context is unseen, the sentinel is drawn, or `limit` tokens have
    /// been emitted.  Everything emitted is a genuine step-by-step walk
    /// through the recorded multisets, and never the sentinel.
    pub fn walk(
        &self,
        dir: Direction,
        start: (u32, u32),
        sentinel: u32,
        limit: usize,
        rng: &mut rand::rngs::ThreadRng,
    ) -> (out: Vec<u32>)
        requires
            self.wf(),
        ensures
            valid_walk(self@, dir, start, out@),
            forall|i: int| 0 <= i < out@.len() ==> out@[i] != sentinel,
            out@.len() <= limit,
            out@.len() < limit ==> walk_stopped(self@, dir, start, out@, sentinel),
    {
        let mut out: Vec<u32> = Vec::new();
        let mut cur: (u32, u32) = start;
        let mut fuel: usize = limit;
        loop
            invariant
                self.wf(),
                valid_walk(self@, dir, start, out@),
                cur == end_prefix(dir, start, out@),
                forall|i: int| 0 <= i < out@.len() ==> out@[i] != sentinel,
                out@.len() + fuel == limit,
            ensures
                valid_walk(self@, dir, start, out@),
                forall|i: int| 0 <= i < out@.len() ==> out@[i] != sentinel,
                out@.len() <= limit,
                out@.len() < limit ==> walk_stopped(self@, dir, start, out@, sentinel),
            decreases fuel,
        {
            if fuel == 0 {
                break ;
            }
            match self.get(cur) {
                None => {
                    break ;
                },
                Some(toksets) => {
                    let m: &BufferTokSet = match dir {
                        Direction::Forward => &toksets.forward,
                        Direction::Reverse => &toksets.reverse,
                    };
                    let choice: u32 = m.sample(rng);
                    if choice == sentinel {
                        proof {
                            assert(dir_elems(self@[spec_pack(cur.0, cur.1)], dir).contains(
                                choice,
                            ));
                        }
                        break ;
                    }
                    proof {
                        lemma_walk_snoc(self@, dir, start, out@, choice);
                    }
                    out.push(choice);
                    cur = match dir {
                        Direction::Forward => (cur.1, choice),
                        Direction::Reverse => (choice, cur.0),
                    };
                    fuel = fuel - 1;
                },
            }
        }
        out
    }
}

} // verus!
