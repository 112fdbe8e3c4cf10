//! The chain: one dictionary, one transition index and one entry index,
//! fed line by line and queried for generated sequences.
//!
//! Ingestion pads each line's tokens with sentinels, then records every
//! consecutive four-token window `(a, b, c, d)`: `d` goes into the forward
//! multiset of context `(b, c)`, `a` into its reverse multiset, and `c`
//! into the entry multiset of `b`.  Generation walks the index forward
//! and backward from a seed context and joins the resolved words.

use vstd::multiset::Multiset;
use vstd::prelude::*;

use crate::dict::Dict;
use crate::dict::dict_distinct;
use crate::dict::lemma_id_of_entry;
use crate::dict::spec_has;
use crate::dict::spec_id;
use crate::entries::Entries;
use crate::entries::ent_at;
use crate::paths::Direction;
use crate::paths::NextTokens;
use crate::paths::TokenPaths;
use crate::paths::lemma_walk_bounded;
use crate::paths::seq_bounded;
use crate::paths::sets_bounded;
use crate::paths::spec_pack;
use crate::paths::valid_walk;
use crate::paths::walk_stopped;
use crate::tokset::BufferTokSet;
use crate::tokset::TokSet;
use crate::words::join_spec;
use crate::words::join_words;
use crate::words::split_words;
use crate::words::views_of;
use crate::words::whitespace_split;

verus! {

/// The sentinel token: identifier 0, the empty string, marking the start
/// or end of a sequence.
pub const SENTINEL: u32 = 0;

/// Identifiers must fit the three-byte encoding of the frequency
/// multisets, so the dictionary may hold at most this many strings.
pub const MAX_TOKENS: usize = 0x1000000;

/// Most tokens a single walk may emit before it is cut off.
pub const WALK_LIMIT: usize = 0x10000;

/// How many candidates one generation request draws before picking the
/// one closest to the target length.
pub const CANDIDATES: usize = 49;

/// Every word of `ws` is an entry of `d`.
pub open spec fn all_in_dict(d: Seq<Seq<char>>, ws: Seq<Seq<char>>) -> bool {
    forall|i: int| 0 <= i < ws.len() ==> spec_has(d, #[trigger] ws[i])
}

/// The dictionary words named by a sequence of identifiers.
pub open spec fn words_of(d: Seq<Seq<char>>, ids: Seq<u32>) -> Seq<Seq<char>> {
    ids.map_values(|id: u32| d[id as int])
}

/// A finished walk: a genuine step-by-step walk through the index that
/// never emits the sentinel and runs until the cut-off, an unseen
/// context, or a context whose multiset can yield the sentinel.
pub open spec fn complete_walk(
    m: Map<u64, NextTokens>,
    dir: Direction,
    start: (u32, u32),
    ids: Seq<u32>,
) -> bool {
    &&& valid_walk(m, dir, start, ids)
    &&& forall|j: int| 0 <= j < ids.len() ==> ids[j] != SENTINEL
    &&& ids.len() <= WALK_LIMIT
    &&& (ids.len() < WALK_LIMIT ==> walk_stopped(m, dir, start, ids, SENTINEL))
}

/// Intern one word: known words leave the dictionary unchanged, new words
/// are appended.
pub open spec fn intern_one(d: Seq<Seq<char>>, w: Seq<char>) -> Seq<Seq<char>> {
    if spec_has(d, w) {
        d
    } else {
        d.push(w)
    }
}

/// The dictionary after interning `words` in order.
pub open spec fn intern_all(d: Seq<Seq<char>>, words: Seq<Seq<char>>) -> Seq<Seq<char>>
    decreases words.len(),
{
    if words.len() == 0 {
        d
    } else {
        intern_all(intern_one(d, words[0]), words.drop_first())
    }
}

/// Interning words one after another is interning them all.
pub proof fn lemma_intern_all_push(d: Seq<Seq<char>>, words: Seq<Seq<char>>, w: Seq<char>)
    ensures
        intern_all(d, words.push(w)) == intern_one(intern_all(d, words), w),
    decreases words.len(),
{
    if words.len() == 0 {
        assert(words.push(w)[0] == w);
        assert(words.push(w).drop_first() =~= Seq::<Seq<char>>::empty());
        assert(intern_all(intern_one(d, w), Seq::<Seq<char>>::empty()) == intern_one(d, w));
        assert(intern_all(d, words) == d);
    } else {
        assert(words.push(w)[0] == words[0]);
        assert(words.push(w).drop_first() =~= words.drop_first().push(w));
        lemma_intern_all_push(intern_one(d, words[0]), words.drop_first(), w);
        assert(intern_all(d, words) == intern_all(intern_one(d, words[0]), words.drop_first()));
        assert(intern_all(d, words.push(w)) == intern_all(
            intern_one(d, words[0]),
            words.drop_first().push(w),
        ));
    }
}

/// Interning keeps the dictionary duplicate-free.
pub proof fn lemma_intern_one_distinct(d: Seq<Seq<char>>, w: Seq<char>)
    requires
        dict_distinct(d),
    ensures
        dict_distinct(intern_one(d, w)),
        d.len() <= intern_one(d, w).len() <= d.len() + 1,
        forall|i: int| 0 <= i < d.len() ==> intern_one(d, w)[i] == d[i],
        spec_has(intern_one(d, w), w),
{
    if !spec_has(d, w) {
        let d2 = d.push(w);
        assert forall|i: int, j: int|
            0 <= i < d2.len() && 0 <= j < d2.len() && i != j implies d2[i] != d2[j] by {
            if i < d.len() && j < d.len() {
            } else if i < d.len() {
                assert(d2[j] == w);
                assert(!spec_has(d, d2[i]) ==> d2[i] != d2[i]);
                assert(spec_has(d, d2[i]));
            } else {
                assert(d2[i] == w);
                assert(spec_has(d, d2[j]));
            }
        }
        assert(d2[d.len() as int] == w);
    }
}

/// Identifiers are stable: extending the dictionary by one word moves no
/// existing word's identifier.
pub proof fn lemma_ids_stable(d: Seq<Seq<char>>, w: Seq<char>)
    requires
        dict_distinct(intern_one(d, w)),
    ensures
        forall|u: Seq<char>|
            spec_has(d, u) ==> spec_has(intern_one(d, w), u) && spec_id(intern_one(d, w), u)
                == spec_id(d, u),
{
    let d2 = intern_one(d, w);
    assert forall|u: Seq<char>| spec_has(d, u) implies spec_has(d2, u) && spec_id(d2, u)
        == spec_id(d, u) by {
        let j = spec_id(d, u);
        assert(0 <= j < d.len() && d[j] == u);
        assert(d2[j] == u);
        assert(spec_has(d2, u));
        let j2 = spec_id(d2, u);
        assert(0 <= j2 < d2.len() && d2[j2] == u);
        if j2 != j {
            assert(d2[j2] != d2[j]);
        }
    }
}

/// The identifiers of `words` under dictionary `d`.
pub open spec fn ids_of(d: Seq<Seq<char>>, words: Seq<Seq<char>>) -> Seq<u32> {
    Seq::new(words.len(), |i: int| spec_id(d, words[i]) as u32)
}

/// A line's identifier sequence, padded with three sentinels before and
/// two after, so that generation can both enter and leave the line.
pub open spec fn padded(ids: Seq<u32>) -> Seq<u32> {
    seq![SENTINEL, SENTINEL, SENTINEL] + ids + seq![SENTINEL, SENTINEL]
}

/// The model of the transition index: each context's forward and reverse
/// multisets.
pub open spec fn proj_paths(m: Map<u64, NextTokens>) -> Map<u64, (Multiset<u32>, Multiset<u32>)> {
    m.map_values(|nt: NextTokens| (nt.forward@.to_multiset(), nt.reverse@.to_multiset()))
}

/// The model of the entry index: each token's successor multiset.
pub open spec fn proj_entries(m: Map<u32, BufferTokSet>) -> Map<u32, Multiset<u32>> {
    m.map_values(|ts: BufferTokSet| ts@.to_multiset())
}

/// Record one four-token window `(a, b, c, d)` in the two model maps.
pub open spec fn record_window(
    pm: Map<u64, (Multiset<u32>, Multiset<u32>)>,
    em: Map<u32, Multiset<u32>>,
    a: u32,
    b: u32,
    c: u32,
    d: u32,
) -> (Map<u64, (Multiset<u32>, Multiset<u32>)>, Map<u32, Multiset<u32>>) {
    let k = spec_pack(b, c);
    let cur = if pm.dom().contains(k) {
        pm[k]
    } else {
        (Multiset::empty(), Multiset::empty())
    };
    let ecur = if em.dom().contains(b) {
        em[b]
    } else {
        Multiset::empty()
    };
    (pm.insert(k, (cur.0.insert(d), cur.1.insert(a))), em.insert(b, ecur.insert(c)))
}

/// The model maps after recording the first `n` windows of `toks`.
pub open spec fn fold_windows(
    pm: Map<u64, (Multiset<u32>, Multiset<u32>)>,
    em: Map<u32, Multiset<u32>>,
    toks: Seq<u32>,
    n: int,
) -> (Map<u64, (Multiset<u32>, Multiset<u32>)>, Map<u32, Multiset<u32>>)
    decreases n,
{
    if n <= 0 {
        (pm, em)
    } else {
        let prev = fold_windows(pm, em, toks, n - 1);
        record_window(prev.0, prev.1, toks[n - 1], toks[n], toks[n + 1], toks[n + 2])
    }
}

/// A multiset insertion of a bounded value keeps the stored sequence
/// bounded, whatever position the encoding chose for it.
pub proof fn lemma_bounded_after_insert(s_old: Seq<u32>, s_new: Seq<u32>, v: u32, bound: int)
    requires
        s_new.to_multiset() == s_old.to_multiset().insert(v),
        seq_bounded(s_old, bound),
        v < bound,
    ensures
        seq_bounded(s_new, bound),
{
    broadcast use vstd::seq_lib::group_to_multiset_ensures;
    broadcast use vstd::multiset::group_multiset_axioms;

    assert forall|i: int| 0 <= i < s_new.len() implies s_new[i] < bound by {
        let x = s_new[i];
        assert(s_new.contains(x));
        assert(s_new.to_multiset().count(x) > 0);
        if x != v {
            assert(s_old.to_multiset().count(x) > 0);
            assert(s_old.contains(x));
            let j = choose|j: int| 0 <= j < s_old.len() && s_old[j] == x;
            assert(s_old[j] < bound);
        }
    }
}

/// A bound on the recorded identifiers stays a bound when it grows.
pub proof fn lemma_bounds_monotone(
    p: Map<u64, NextTokens>,
    e: Map<u32, BufferTokSet>,
    b1: int,
    b2: int,
)
    requires
        sets_bounded(p, b1),
        entries_bounded(e, b1),
        b1 <= b2,
    ensures
        sets_bounded(p, b2),
        entries_bounded(e, b2),
{
    assert forall|k: u64| p.dom().contains(k) implies seq_bounded(
        (#[trigger] p[k]).forward@,
        b2,
    ) && seq_bounded(p[k].reverse@, b2) by {
        assert(seq_bounded(p[k].forward@, b1));
        assert(seq_bounded(p[k].reverse@, b1));
    }
    assert forall|k: u32| e.dom().contains(k) implies seq_bounded((#[trigger] e[k])@, b2) by {
        assert(seq_bounded(e[k]@, b1));
    }
}

/// Errors of ingestion.
#[derive(Clone, Copy, Debug, PartialEq, Eq)]
pub enum ChainError {
    /// A token would need an identifier beyond the three-byte encoding
    /// ceiling of the frequency multisets.
    IdentifierOverflow,
}

/// Distance between a candidate's length and the target length.
pub open spec fn dist(len: int, target: int) -> int {
    if len >= target {
        len - target
    } else {
        target - len
    }
}

/// `v` is a candidate of `cands` whose length is closest to `target`,
/// and the earliest such candidate.
pub open spec fn best_pick(cands: Seq<Option<Vec<String>>>, target: int, v: Vec<String>) -> bool {
    exists|i: int|
        {
            &&& 0 <= i < cands.len()
            &&& #[trigger] cands[i] == Some(v)
            &&& forall|j: int|
                0 <= j < cands.len() ==> ((#[trigger] cands[j]) matches Some(u) ==> dist(
                    v@.len() as int,
                    target,
                ) <= dist(u@.len() as int, target))
            &&& forall|j: int|
                0 <= j < i ==> ((#[trigger] cands[j]) matches Some(u) ==> dist(
                    u@.len() as int,
                    target,
                ) > dist(v@.len() as int, target))
        }
}

/// `sv` joins, with single spaces, a candidate of `cands` whose length
/// is closest to `target`, the earliest on ties.
pub open spec fn best_join(cands: Seq<Option<Vec<String>>>, target: int, sv: Seq<char>) -> bool {
    exists|v: Vec<String>| #[trigger]
        best_pick(cands, target, v) && sv == join_spec(views_of(v@))
}

/// Whether interning `words` into `d` stays under the identifier ceiling
/// at every step at which ingestion checks it.
pub open spec fn intern_fits(d: Seq<Seq<char>>, words: Seq<Seq<char>>) -> bool {
    forall|i: int| 0 <= i < words.len() ==> intern_all(d, #[trigger] words.take(i)).len() < MAX_TOKENS
}

/// Every window that was folded in is recorded: after folding `n`
/// windows, window `w`'s context `(b, c)` holds `d` in its forward
/// multiset and `a` in its reverse multiset, and the entry multiset of
/// `b` holds `c` — whatever other windows were recorded before or after.
pub proof fn lemma_fold_window_recorded(
    pm: Map<u64, (Multiset<u32>, Multiset<u32>)>,
    em: Map<u32, Multiset<u32>>,
    toks: Seq<u32>,
    n: int,
    w: int,
)
    requires
        0 <= w < n,
        n + 2 < toks.len(),
    ensures
        fold_windows(pm, em, toks, n).0.dom().contains(spec_pack(toks[w + 1], toks[w + 2])),
        fold_windows(pm, em, toks, n).0[spec_pack(toks[w + 1], toks[w + 2])].0.count(
            toks[w + 3],
        ) > 0,
        fold_windows(pm, em, toks, n).0[spec_pack(toks[w + 1], toks[w + 2])].1.count(toks[w])
            > 0,
        fold_windows(pm, em, toks, n).1.dom().contains(toks[w + 1]),
        fold_windows(pm, em, toks, n).1[toks[w + 1]].count(toks[w + 2]) > 0,
    decreases n,
{
    broadcast use vstd::multiset::group_multiset_axioms;

    let prev = fold_windows(pm, em, toks, n - 1);
    let cur = fold_windows(pm, em, toks, n);
    let k = spec_pack(toks[w + 1], toks[w + 2]);
    let kn = spec_pack(toks[n], toks[n + 1]);
    assert(cur == record_window(prev.0, prev.1, toks[n - 1], toks[n], toks[n + 1], toks[n + 2]));
    if w == n - 1 {
    } else {
        lemma_fold_window_recorded(pm, em, toks, n - 1, w);
        if kn == k {
            assert(cur.0[k].0.count(toks[w + 3]) >= prev.0[k].0.count(toks[w + 3]));
            assert(cur.0[k].1.count(toks[w]) >= prev.0[k].1.count(toks[w]));
        }
        if toks[n] == toks[w + 1] {
            assert(cur.1[toks[w + 1]].count(toks[w + 2]) >= prev.1[toks[w + 1]].count(
                toks[w + 2],
            ));
        }
    }
}

/// Package the pieces of a non-empty-seed result — the seed identifiers
/// between a reversed finished reverse walk and a finished forward walk —
/// into the seeded result shape.
proof fn lemma_seeded_shape_intro(
    c: Chain,
    startv: Seq<char>,
    v: Seq<String>,
    phrase: Seq<u32>,
    rids: Seq<u32>,
    fids: Seq<u32>,
)
    requires
        whitespace_split(startv).len() >= 1,
        phrase.len() == if whitespace_split(startv).len() == 1 {
            2int
        } else {
            whitespace_split(startv).len() as int
        },
        forall|j: int|
            0 <= j < whitespace_split(startv).len() ==> #[trigger] phrase[j] as int == spec_id(
                c.dict@,
                whitespace_split(startv)[j],
            ),
        forall|j: int| 0 <= j < phrase.len() ==> #[trigger] phrase[j] < c.dict@.len(),
        whitespace_split(startv).len() == 1 ==> ent_at(c.entries@, phrase[0]).count(phrase[1])
            > 0,
        complete_walk(c.paths@, Direction::Reverse, (phrase[0], phrase[1]), rids),
        complete_walk(
            c.paths@,
            Direction::Forward,
            (phrase[phrase.len() - 2], phrase[phrase.len() - 1]),
            fids,
        ),
        forall|j: int| 0 <= j < rids.len() ==> #[trigger] rids[j] < c.dict@.len(),
        forall|j: int| 0 <= j < fids.len() ==> #[trigger] fids[j] < c.dict@.len(),
        views_of(v) == words_of(c.dict@, rids.reverse() + phrase + fids),
    ensures
        c.seeded_shape(startv, v),
{
}

/// The chain: dictionary, transition index and entry index.
#[derive(Debug)]
pub struct Chain {
    /// The token dictionary; the sentinel is entry 0.
    pub dict: Dict,
    /// The bidirectional transition index over bigram contexts.
    pub paths: TokenPaths,
    /// The single-token entry index.
    pub entries: Entries,
}

/// Every successor multiset of the entry index holds only identifiers
/// below `bound`.
pub open spec fn entries_bounded(m: Map<u32, BufferTokSet>, bound: int) -> bool {
    forall|k: u32| m.dom().contains(k) ==> seq_bounded((#[trigger] m[k])@, bound)
}

impl Chain {
    /// The chain's invariant: every component holds its own invariant,
    /// the sentinel is entry 0, the dictionary respects the identifier
    /// ceiling, and every recorded identifier resolves in the dictionary.
    pub open spec fn inv(&self) -> bool {
        &&& self.dict.wf()
        &&& self.paths.wf()
        &&& self.entries.wf()
        &&& 1 <= self.dict@.len() <= MAX_TOKENS
        &&& self.dict@[0] == Seq::<char>::empty()
        &&& sets_bounded(self.paths@, self.dict@.len() as int)
        &&& entries_bounded(self.entries@, self.dict@.len() as int)
    }

    /// An empty chain: the dictionary holds only the sentinel and no
    /// transition has been recorded.
    pub fn new() -> (r: Chain)
        ensures
            r.inv(),
            r.dict@ =~= seq![Seq::<char>::empty()],
            r.paths@ == Map::<u64, NextTokens>::empty(),
            r.entries@ == Map::<u32, BufferTokSet>::empty(),
    {
        let mut dict = Dict::new();
        proof {
            reveal_strlit("");
            assert(""@ =~= Seq::<char>::empty());
        }
        dict.tokid("");
        Chain { dict, paths: TokenPaths::new(), entries: Entries::new() }
    }

    /// Intern every token of one line and return the padded identifier
    /// sequence: three sentinels, the words' identifiers, two sentinels.
    /// Stops with an error if a word would need an identifier beyond the
    /// encoding ceiling; words interned before that stay in the
    /// dictionary, and nothing else changes.
    fn intern_tokens(&mut self, tokens: &Vec<String>) -> (r: Result<Vec<u32>, ChainError>)
        requires
            old(self).inv(),
            tokens@.len() > 0,
        ensures
            final(self).dict.wf(),
            1 <= final(self).dict@.len() <= MAX_TOKENS,
            final(self).dict@[0] == Seq::<char>::empty(),
            final(self).paths == old(self).paths,
            final(self).entries == old(self).entries,
            old(self).dict@.len() <= final(self).dict@.len(),
            match r {
                Ok(toks) => {
                    &&& intern_fits(old(self).dict@, views_of(tokens@))
                    &&& final(self).dict@ == intern_all(old(self).dict@, views_of(tokens@))
                    &&& toks@ == padded(ids_of(final(self).dict@, views_of(tokens@)))
                    &&& toks@.len() == tokens@.len() + 5
                    &&& forall|j: int|
                        0 <= j < toks@.len() ==> #[trigger] toks@[j] < final(self).dict@.len()
                },
                Err(_) => {
                    &&& !intern_fits(old(self).dict@, views_of(tokens@))
                    &&& exists|i: int|
                        {
                            &&& 0 <= i < views_of(tokens@).len()
                            &&& intern_all(old(self).dict@, #[trigger] views_of(
                                tokens@,
                            ).take(i)).len() >= MAX_TOKENS
                            &&& forall|i2: int|
                                0 <= i2 < i ==> intern_all(old(self).dict@, #[trigger] views_of(
                                    tokens@,
                                ).take(i2)).len() < MAX_TOKENS
                            &&& final(self).dict@ == intern_all(
                                old(self).dict@,
                                views_of(tokens@).take(i),
                            )
                        }
                },
            },
    {
        let ghost words = views_of(tokens@);
        let mut toks: Vec<u32> = Vec::new();
        toks.push(SENTINEL);
        toks.push(SENTINEL);
        toks.push(SENTINEL);
        let mut idx: usize = 0;
        while idx < tokens.len()
            invariant
                old(self).inv(),
                tokens@.len() > 0,
                self.dict.wf(),
                1 <= self.dict@.len() <= MAX_TOKENS,
                self.dict@[0] == Seq::<char>::empty(),
                old(self).dict@.len() <= self.dict@.len(),
                self.paths == old(self).paths,
                self.entries == old(self).entries,
                idx <= tokens@.len(),
                words == views_of(tokens@),
                self.dict@ == intern_all(old(self).dict@, words.take(idx as int)),
                forall|i: int|
                    0 <= i < idx ==> intern_all(old(self).dict@, #[trigger] words.take(i)).len()
                        < MAX_TOKENS,
                toks@.len() == idx + 3,
                toks@[0] == SENTINEL && toks@[1] == SENTINEL && toks@[2] == SENTINEL,
                forall|j: int|
                    0 <= j < idx ==> spec_has(self.dict@, #[trigger] words[j]) && toks@[j + 3]
                        as int == spec_id(self.dict@, words[j]),
                forall|j: int| 0 <= j < toks@.len() ==> #[trigger] toks@[j] < self.dict@.len(),
            decreases tokens@.len() - idx,
        {
            if self.dict.len() >= MAX_TOKENS {
                proof {
                    assert(intern_all(old(self).dict@, words.take(idx as int)).len()
                        >= MAX_TOKENS);
                    assert(!intern_fits(old(self).dict@, words));
                }
                return Err(ChainError::IdentifierOverflow);
            }
            let ghost dpre = self.dict@;
            let id: u32 = self.dict.tokid(tokens[idx].as_str());
            proof {
                assert(words[idx as int] == tokens@[idx as int]@);
                assert(self.dict@ == intern_one(dpre, words[idx as int]));
                lemma_intern_one_distinct(dpre, words[idx as int]);
                lemma_intern_all_push(old(self).dict@, words.take(idx as int), words[idx as int]);
                assert(words.take(idx + 1) =~= words.take(idx as int).push(words[idx as int]));
                lemma_ids_stable(dpre, words[idx as int]);
                lemma_id_of_entry(self.dict@, id as int);
                assert(self.dict@[id as int] == words[idx as int]);
            }
            toks.push(id);
            idx = idx + 1;
        }
        toks.push(SENTINEL);
        toks.push(SENTINEL);
        proof {
            assert(words.take(words.len() as int) =~= words);
            assert(toks@ =~= padded(ids_of(self.dict@, words)));
        }
        Ok(toks)
    }

    /// Record every consecutive four-token window of the padded sequence
    /// in the transition and entry indices.
    fn record_windows(&mut self, toks: &Vec<u32>)
        requires
            old(self).paths.wf(),
            old(self).entries.wf(),
            old(self).dict.wf(),
            1 <= old(self).dict@.len() <= MAX_TOKENS,
            sets_bounded(old(self).paths@, old(self).dict@.len() as int),
            entries_bounded(old(self).entries@, old(self).dict@.len() as int),
            forall|j: int| 0 <= j < toks@.len() ==> #[trigger] toks@[j] < old(self).dict@.len(),
            toks@.len() >= 3,
        ensures
            final(self).dict == old(self).dict,
            final(self).paths.wf(),
            final(self).entries.wf(),
            sets_bounded(final(self).paths@, old(self).dict@.len() as int),
            entries_bounded(final(self).entries@, old(self).dict@.len() as int),
            proj_paths(final(self).paths@) == fold_windows(
                proj_paths(old(self).paths@),
                proj_entries(old(self).entries@),
                toks@,
                toks@.len() - 3,
            ).0,
            proj_entries(final(self).entries@) == fold_windows(
                proj_paths(old(self).paths@),
                proj_entries(old(self).entries@),
                toks@,
                toks@.len() - 3,
            ).1,
    {
        let ghost tseq = toks@;
        let ghost pm0 = proj_paths(self.paths@);
        let ghost em0 = proj_entries(self.entries@);
        let ghost bound = old(self).dict@.len() as int;
        let mut w: usize = 0;
        let n: usize = toks.len() - 3;
        while w < n
            invariant
                self.dict == old(self).dict,
                self.paths.wf(),
                self.entries.wf(),
                w <= n,
                toks@ == tseq,
                n + 3 == tseq.len(),
                n + 3 <= usize::MAX,
                bound == old(self).dict@.len() as int,
                proj_paths(self.paths@) == fold_windows(pm0, em0, tseq, w as int).0,
                proj_entries(self.entries@) == fold_windows(pm0, em0, tseq, w as int).1,
                sets_bounded(self.paths@, bound),
                entries_bounded(self.entries@, bound),
                1 <= bound <= MAX_TOKENS,
                forall|j: int| 0 <= j < tseq.len() ==> #[trigger] tseq[j] < bound,
            decreases n - w,
        {
            let a: u32 = toks[w];
            let b: u32 = toks[w + 1];
            let c: u32 = toks[w + 2];
            let d: u32 = toks[w + 3];
            let ghost ppre = self.paths@;
            let ghost epre = self.entries@;
            self.paths.append((b, c), d, a);
            self.entries.record(b, c);
            proof {
                broadcast use vstd::seq_lib::group_to_multiset_ensures;

                let k = spec_pack(b, c);
                let prev = fold_windows(pm0, em0, tseq, w as int);
                let next = fold_windows(pm0, em0, tseq, w as int + 1);
                assert(next == record_window(prev.0, prev.1, a, b, c, d));
                assert(Seq::<u32>::empty().to_multiset().len() == 0);
                assert(Seq::<u32>::empty().to_multiset() =~= Multiset::<u32>::empty());
                assert(proj_paths(self.paths@) =~= next.0);
                assert(proj_entries(self.entries@) =~= next.1);
                assert forall|k2: u64| self.paths@.dom().contains(k2) implies seq_bounded(
                    (#[trigger] self.paths@[k2]).forward@,
                    bound,
                ) && seq_bounded(self.paths@[k2].reverse@, bound) by {
                    if k2 == k {
                        let olds_f = if ppre.dom().contains(k) {
                            ppre[k].forward@
                        } else {
                            Seq::<u32>::empty()
                        };
                        assert(self.paths@[k].forward@.to_multiset() == olds_f.to_multiset().insert(
                            d,
                        ));
                        lemma_bounded_after_insert(olds_f, self.paths@[k].forward@, d, bound);
                        let olds_r = if ppre.dom().contains(k) {
                            ppre[k].reverse@
                        } else {
                            Seq::<u32>::empty()
                        };
                        assert(self.paths@[k].reverse@.to_multiset() == olds_r.to_multiset().insert(
                            a,
                        ));
                        lemma_bounded_after_insert(olds_r, self.paths@[k].reverse@, a, bound);
                    } else {
                        assert(ppre.dom().contains(k2));
                        assert(self.paths@[k2] == ppre[k2]);
                    }
                }
                assert forall|k2: u32| self.entries@.dom().contains(k2) implies seq_bounded(
                    (#[trigger] self.entries@[k2])@,
                    bound,
                ) by {
                    if k2 == b {
                        let olds_e = if epre.dom().contains(b) {
                            epre[b]@
                        } else {
                            Seq::<u32>::empty()
                        };
                        assert(self.entries@[b]@.to_multiset() == olds_e.to_multiset().insert(c));
                        lemma_bounded_after_insert(olds_e, self.entries@[b]@, c, bound);
                    } else {
                        assert(epre.dom().contains(k2));
                        assert(self.entries@[k2] == epre[k2]);
                    }
                }
            }
            w = w + 1;
        }
    }

    /// Ingest one line's tokens: intern every word, pad the identifier
    /// sequence with sentinels, and record every consecutive four-token
    /// window in the transition and entry indices.  An empty token list
    /// is a silent no-op.  If a token would need an identifier beyond
    /// the encoding ceiling, ingestion stops before recording anything;
    /// words interned up to that point stay in the dictionary.
    pub fn feed(&mut self, tokens: Vec<String>) -> (r: Result<(), ChainError>)
        requires
            old(self).inv(),
        ensures
            final(self).inv(),
            r is Ok <==> intern_fits(old(self).dict@, views_of(tokens@)),
            r is Ok && tokens@.len() == 0 ==> {
                &&& final(self).dict@ == old(self).dict@
                &&& final(self).paths@ == old(self).paths@
                &&& final(self).entries@ == old(self).entries@
            },
            r is Ok && tokens@.len() > 0 ==> {
                let words = views_of(tokens@);
                let d2 = intern_all(old(self).dict@, words);
                let toks = padded(ids_of(d2, words));
                &&& final(self).dict@ == d2
                &&& proj_paths(final(self).paths@) == fold_windows(
                    proj_paths(old(self).paths@),
                    proj_entries(old(self).entries@),
                    toks,
                    toks.len() - 3,
                ).0
                &&& proj_entries(final(self).entries@) == fold_windows(
                    proj_paths(old(self).paths@),
                    proj_entries(old(self).entries@),
                    toks,
                    toks.len() - 3,
                ).1
            },
            r is Err ==> {
                &&& final(self).paths@ == old(self).paths@
                &&& final(self).entries@ == old(self).entries@
                &&& exists|i: int|
                    {
                        &&& 0 <= i < views_of(tokens@).len()
                        &&& intern_all(old(self).dict@, #[trigger] views_of(tokens@).take(
                            i,
                        )).len() >= MAX_TOKENS
                        &&& forall|i2: int|
                            0 <= i2 < i ==> intern_all(old(self).dict@, #[trigger] views_of(
                                tokens@,
                            ).take(i2)).len() < MAX_TOKENS
                        &&& final(self).dict@ == intern_all(
                            old(self).dict@,
                            views_of(tokens@).take(i),
                        )
                    }
            },
    {
        if tokens.len() == 0 {
            return Ok(());
        }
        let toks: Vec<u32> = match self.intern_tokens(&tokens) {
            Ok(t) => t,
            Err(e) => {
                proof {
                    lemma_bounds_monotone(
                        self.paths@,
                        self.entries@,
                        old(self).dict@.len() as int,
                        self.dict@.len() as int,
                    );
                }
                return Err(e);
            },
        };
        proof {
            lemma_bounds_monotone(
                self.paths@,
                self.entries@,
                old(self).dict@.len() as int,
                self.dict@.len() as int,
            );
        }
        self.record_windows(&toks);
        Ok(())
    }


    /// Ingest one line of text: split it on whitespace and feed the
    /// words.  A line with no words is a silent no-op.
    pub fn feed_str(&mut self, string: &str) -> (r: Result<(), ChainError>)
        requires
            old(self).inv(),
        ensures
            final(self).inv(),
            r is Ok <==> intern_fits(old(self).dict@, whitespace_split(string@)),
            r is Ok && whitespace_split(string@).len() == 0 ==> {
                &&& final(self).dict@ == old(self).dict@
                &&& final(self).paths@ == old(self).paths@
                &&& final(self).entries@ == old(self).entries@
            },
            r is Ok && whitespace_split(string@).len() > 0 ==> {
                let words = whitespace_split(string@);
                let d2 = intern_all(old(self).dict@, words);
                let toks = padded(ids_of(d2, words));
                &&& final(self).dict@ == d2
                &&& proj_paths(final(self).paths@) == fold_windows(
                    proj_paths(old(self).paths@),
                    proj_entries(old(self).entries@),
                    toks,
                    toks.len() - 3,
                ).0
                &&& proj_entries(final(self).entries@) == fold_windows(
                    proj_paths(old(self).paths@),
                    proj_entries(old(self).entries@),
                    toks,
                    toks.len() - 3,
                ).1
            },
            r is Err ==> {
                &&& final(self).paths@ == old(self).paths@
                &&& final(self).entries@ == old(self).entries@
                &&& exists|i: int|
                    {
                        &&& 0 <= i < whitespace_split(string@).len()
                        &&& intern_all(old(self).dict@, #[trigger] whitespace_split(
                            string@,
                        ).take(i)).len() >= MAX_TOKENS
                        &&& forall|i2: int|
                            0 <= i2 < i ==> intern_all(old(self).dict@, #[trigger] whitespace_split(
                                string@,
                            ).take(i2)).len() < MAX_TOKENS
                        &&& final(self).dict@ == intern_all(
                            old(self).dict@,
                            whitespace_split(string@).take(i),
                        )
                    }
            },
    {
        let words: Vec<String> = split_words(string);
        self.feed(words)
    }

    /// Resolve a sequence of valid identifiers back to their words.
    fn resolve_ids(&self, ids: &Vec<u32>) -> (out: Vec<String>)
        requires
            self.dict.wf(),
            forall|j: int| 0 <= j < ids@.len() ==> #[trigger] ids@[j] < self.dict@.len(),
        ensures
            out@.len() == ids@.len(),
            forall|j: int|
                0 <= j < ids@.len() ==> (#[trigger] out@[j])@ == self.dict@[ids@[j] as int],
    {
        let mut out: Vec<String> = Vec::new();
        let mut i: usize = 0;
        while i < ids.len()
            invariant
                self.dict.wf(),
                forall|j: int| 0 <= j < ids@.len() ==> #[trigger] ids@[j] < self.dict@.len(),
                i <= ids@.len(),
                out@.len() == i,
                forall|j: int|
                    0 <= j < i ==> (#[trigger] out@[j])@ == self.dict@[ids@[j] as int],
            decreases ids@.len() - i,
        {
            match self.dict.entry(ids[i]) {
                Some(w) => {
                    out.push(w);
                },
                None => {
                    proof {
                        assert(false);
                    }
                },
            }
            i = i + 1;
        }
        out
    }

    /// The identifiers `ids` are a finished walk from `start` in
    /// direction `dir`, and `v` is their words.
    pub open spec fn resolved_walk(
        &self,
        dir: Direction,
        start: (u32, u32),
        ids: Seq<u32>,
        v: Seq<String>,
    ) -> bool {
        &&& complete_walk(self.paths@, dir, start, ids)
        &&& forall|j: int| 0 <= j < ids.len() ==> #[trigger] ids[j] < self.dict@.len()
        &&& views_of(v) == words_of(self.dict@, ids)
    }

    /// Walk the transition index from `prefix` in direction `dir` and
    /// resolve the emitted identifiers to words.  An unseen context
    /// yields the empty sequence.  The words are exactly a finished walk
    /// through the index: each step drawn from the current context's
    /// multiset, never the sentinel, stopping only at the cut-off, an
    /// unseen context, or a context that can yield the sentinel.
    pub fn generate_from_prefix(
        &self,
        dir: Direction,
        prefix: (u32, u32),
        rng: &mut rand::rngs::ThreadRng,
    ) -> (out: Vec<String>)
        requires
            self.inv(),
        ensures
            !self.paths@.dom().contains(spec_pack(prefix.0, prefix.1)) ==> out@.len() == 0,
            all_in_dict(self.dict@, views_of(out@)),
            forall|j: int| 0 <= j < out@.len() ==> (#[trigger] out@[j])@.len() > 0,
            exists|ids: Seq<u32>| self.resolved_walk(dir, prefix, ids, out@),
    {
        match self.paths.get(prefix) {
            None => {
                let out: Vec<String> = Vec::new();
                proof {
                    let ids = Seq::<u32>::empty();
                    assert(complete_walk(self.paths@, dir, prefix, ids));
                    assert(views_of(out@) =~= words_of(self.dict@, ids));
                    assert(self.resolved_walk(dir, prefix, ids, out@));
                }
                out
            },
            Some(_) => {
                let ids: Vec<u32> = self.paths.walk(dir, prefix, SENTINEL, WALK_LIMIT, rng);
                proof {
                    lemma_walk_bounded(self.paths@, dir, prefix, ids@, self.dict@.len() as int);
                }
                let out = self.resolve_ids(&ids);
                proof {
                    assert forall|i: int| 0 <= i < views_of(out@).len() implies spec_has(
                        self.dict@,
                        #[trigger] views_of(out@)[i],
                    ) by {
                        assert(out@[i]@ == self.dict@[ids@[i] as int]);
                        assert(0 <= ids@[i] < self.dict@.len());
                    }
                    assert forall|j: int| 0 <= j < out@.len() implies (#[trigger] out@[j])@.len()
                        > 0 by {
                        assert(out@[j]@ == self.dict@[ids@[j] as int]);
                        assert(ids@[j] != SENTINEL);
                        assert(self.dict@[ids@[j] as int] != self.dict@[0]);
                        if out@[j]@.len() == 0 {
                            assert(out@[j]@ =~= Seq::<char>::empty());
                        }
                    }
                    assert(complete_walk(self.paths@, dir, prefix, ids@));
                    assert(views_of(out@) =~= words_of(self.dict@, ids@));
                    assert(self.resolved_walk(dir, prefix, ids@, out@));
                }
                out
            },
        }
    }

    /// Everything one unconstrained generation attempt guarantees: it
    /// succeeds exactly when the sentence-start context is recorded, and
    /// a result resolves a finished, sentinel-free forward walk from
    /// that context into non-empty dictionary words.
    pub open spec fn one_candidate_ok(&self, g: Option<Vec<String>>) -> bool {
        &&& (g is Some <==> self.paths@.dom().contains(spec_pack(SENTINEL, SENTINEL)))
        &&& (g matches Some(v) ==> {
            &&& all_in_dict(self.dict@, views_of(v@))
            &&& forall|j: int| 0 <= j < v@.len() ==> (#[trigger] v@[j])@.len() > 0
            &&& exists|ids: Seq<u32>|
                self.resolved_walk(Direction::Forward, (SENTINEL, SENTINEL), ids, v@)
        })
    }

    /// Generate one unconstrained sequence from the sentence-start
    /// context.  An empty chain, with no recorded transition from that
    /// context, yields nothing; a result is a finished forward walk.
    pub fn generate_one(&self, rng: &mut rand::rngs::ThreadRng) -> (r: Option<Vec<String>>)
        requires
            self.inv(),
        ensures
            self.one_candidate_ok(r),
    {
        match self.paths.get((SENTINEL, SENTINEL)) {
            None => None,
            Some(_) => Some(self.generate_from_prefix(Direction::Forward, (SENTINEL, SENTINEL), rng)),
        }
    }

    /// The exact failure condition of a seeded attempt; it does not
    /// depend on the random draws: an unknown seed word, an empty seed
    /// on a chain with no sentence-start context, or a one-word seed
    /// with no recorded successor.
    pub open spec fn seed_failure(&self, startv: Seq<char>) -> bool {
        let ws = whitespace_split(startv);
        ||| exists|t: int| 0 <= t < ws.len() && !spec_has(self.dict@, #[trigger] ws[t])
        ||| (ws.len() == 0 && !self.paths@.dom().contains(spec_pack(SENTINEL, SENTINEL)))
        ||| (ws.len() == 1 && spec_has(self.dict@, ws[0]) && !self.entries@.dom().contains(
            spec_id(self.dict@, ws[0]) as u32,
        ))
    }

    /// The shape of a successful seeded attempt.  An empty seed yields a
    /// finished forward walk from the sentence-start context.  Otherwise
    /// the seed's identifiers — extended by one recorded successor when
    /// the seed is a single word — sit between the reversal of a
    /// finished reverse walk from the first seed bigram and a finished
    /// forward walk from the last.
    pub open spec fn seeded_shape(&self, startv: Seq<char>, v: Seq<String>) -> bool {
        let ws = whitespace_split(startv);
        if ws.len() == 0 {
            exists|ids: Seq<u32>|
                self.resolved_walk(Direction::Forward, (SENTINEL, SENTINEL), ids, v)
        } else {
            exists|phrase: Seq<u32>, rids: Seq<u32>, fids: Seq<u32>|
                {
                    &&& phrase.len() == if ws.len() == 1 {
                        2int
                    } else {
                        ws.len() as int
                    }
                    &&& forall|j: int|
                        0 <= j < ws.len() ==> #[trigger] phrase[j] as int == spec_id(
                            self.dict@,
                            ws[j],
                        )
                    &&& forall|j: int|
                        0 <= j < phrase.len() ==> #[trigger] phrase[j] < self.dict@.len()
                    &&& (ws.len() == 1 ==> ent_at(self.entries@, phrase[0]).count(phrase[1]) > 0)
                    &&& complete_walk(
                        self.paths@,
                        Direction::Reverse,
                        (phrase[0], phrase[1]),
                        rids,
                    )
                    &&& complete_walk(
                        self.paths@,
                        Direction::Forward,
                        (phrase[phrase.len() - 2], phrase[phrase.len() - 1]),
                        fids,
                    )
                    &&& forall|j: int|
                        0 <= j < rids.len() ==> #[trigger] rids[j] < self.dict@.len()
                    &&& forall|j: int|
                        0 <= j < fids.len() ==> #[trigger] fids[j] < self.dict@.len()
                    &&& views_of(v) == words_of(self.dict@, rids.reverse() + phrase + fids)
                }
        }
    }

    /// Everything one seeded generation attempt guarantees: it fails
    /// exactly on `seed_failure`, and a result is dictionary words in
    /// the walk-seed-walk shape, with the seed echoed contiguously.
    pub open spec fn seeded_candidate_ok(&self, startv: Seq<char>, g: Option<Vec<String>>) -> bool {
        &&& (g is None <==> self.seed_failure(startv))
        &&& (g matches Some(v) ==> {
            &&& all_in_dict(self.dict@, views_of(v@))
            &&& (exists|pre: Seq<Seq<char>>, suf: Seq<Seq<char>>|
                views_of(v@) == pre + whitespace_split(startv) + suf)
            &&& self.seeded_shape(startv, v@)
        })
    }

    /// Generate one sequence around a seed phrase.  The seed is looked
    /// up, never interned; an unknown seed word, a one-word seed with no
    /// recorded successor, and an empty seed on an empty chain are the
    /// exact failure cases.  A returned sequence echoes the seed words
    /// contiguously between two finished walks, and uses dictionary
    /// words only.
    pub fn generate_one_from(&self, rng: &mut rand::rngs::ThreadRng, start: &str) -> (r: Option<
        Vec<String>,
    >)
        requires
            self.inv(),
        ensures
            self.seeded_candidate_ok(start@, r),
    {
        let ghost ws = whitespace_split(start@);
        let words: Vec<String> = split_words(start);
        let mut phrase: Vec<u32> = Vec::new();
        let mut i: usize = 0;
        while i < words.len()
            invariant
                self.inv(),
                ws == whitespace_split(start@),
                views_of(words@) == ws,
                i <= words@.len(),
                phrase@.len() == i,
                forall|j: int|
                    0 <= j < i ==> {
                        &&& spec_has(self.dict@, #[trigger] ws[j])
                        &&& phrase@[j] < self.dict@.len()
                        &&& self.dict@[phrase@[j] as int] == ws[j]
                        &&& phrase@[j] as int == spec_id(self.dict@, ws[j])
                    },
            decreases words@.len() - i,
        {
            proof {
                assert(words@[i as int]@ == ws[i as int]);
            }
            match self.dict.get_tokid(words[i].as_str()) {
                None => {
                    return None;
                },
                Some(id) => {
                    proof {
                        lemma_id_of_entry(self.dict@, id as int);
                    }
                    phrase.push(id);
                },
            }
            i = i + 1;
        }
        if phrase.len() == 0 {
            let r = self.generate_one(rng);
            proof {
                if r is Some {
                    let v = r->Some_0;
                    assert(views_of(v@) =~= views_of(v@) + ws + Seq::<Seq<char>>::empty());
                    assert(self.seeded_shape(start@, v@));
                }
            }
            return r;
        }
        if phrase.len() == 1 {
            let possibles: &BufferTokSet = match self.entries.get(phrase[0]) {
                None => {
                    return None;
                },
                Some(p) => p,
            };
            proof {
                assert(self.entries@[phrase@[0]].wf() && self.entries@[phrase@[0]]@.len() > 0);
                assert(seq_bounded(self.entries@[phrase@[0]]@, self.dict@.len() as int));
            }
            let next: u32 = possibles.sample(rng);
            proof {
                let e = self.entries@[phrase@[0]]@;
                let t = choose|t: int| 0 <= t < e.len() && e[t] == next;
                assert(next < self.dict@.len());
            }
            phrase.push(next);
            proof {
                assert forall|j: int| 0 <= j < phrase@.len() implies #[trigger] phrase@[j]
                    < self.dict@.len() by {
                    if j < phrase@.len() - 1 {
                        assert(spec_has(self.dict@, ws[j]));
                    } else {
                        assert(phrase@[j] == next);
                    }
                }
                broadcast use vstd::seq_lib::group_to_multiset_ensures;

                assert(self.entries@[phrase@[0]]@.contains(next));
                assert(ent_at(self.entries@, phrase@[0]).count(phrase@[1]) > 0);
            }
        }
        proof {
            assert forall|j: int| 0 <= j < phrase@.len() implies #[trigger] phrase@[j]
                < self.dict@.len() by {
                if j < ws.len() {
                    assert(spec_has(self.dict@, ws[j]));
                }
            }
        }
        let size: usize = phrase.len();
        let reverse_prefix: (u32, u32) = (phrase[0], phrase[1]);
        let forward_prefix: (u32, u32) = (phrase[size - 2], phrase[size - 1]);
        let mut end: Vec<String> = self.generate_from_prefix(Direction::Forward, forward_prefix, rng);
        let begin: Vec<String> = self.generate_from_prefix(
            Direction::Reverse,
            reverse_prefix,
            rng,
        );
        let mut middle: Vec<String> = self.resolve_ids(&phrase);
        let ghost begin_v = begin@;
        let ghost middle_v = middle@;
        let ghost end_v = end@;
        let ghost fids = choose|ids: Seq<u32>|
            self.resolved_walk(Direction::Forward, forward_prefix, ids, end_v);
        let ghost rids = choose|ids: Seq<u32>|
            self.resolved_walk(Direction::Reverse, reverse_prefix, ids, begin_v);
        proof {
            assert(exists|ids: Seq<u32>|
                self.resolved_walk(Direction::Forward, forward_prefix, ids, end_v));
            assert(exists|ids: Seq<u32>|
                self.resolved_walk(Direction::Reverse, reverse_prefix, ids, begin_v));
            assert(self.resolved_walk(Direction::Forward, forward_prefix, fids, end_v));
            assert(self.resolved_walk(Direction::Reverse, reverse_prefix, rids, begin_v));
        }
        let mut out: Vec<String> = Vec::new();
        let mut j: usize = begin.len();
        while j > 0
            invariant
                j <= begin@.len(),
                begin@ == begin_v,
                out@.len() == begin_v.len() - j,
                forall|t: int|
                    0 <= t < out@.len() ==> #[trigger] out@[t] == begin_v[begin_v.len() - 1 - t],
            decreases j,
        {
            j = j - 1;
            out.push(begin[j].clone());
        }
        let ghost rev_v = out@;
        out.append(&mut middle);
        out.append(&mut end);
        proof {
            assert(out@ == rev_v + middle_v + end_v);
            assert forall|t: int| 0 <= t < views_of(out@).len() implies spec_has(
                self.dict@,
                #[trigger] views_of(out@)[t],
            ) by {
                if t < rev_v.len() {
                    assert(out@[t] == begin_v[rev_v.len() - 1 - t]);
                    assert(spec_has(self.dict@, views_of(begin_v)[rev_v.len() - 1 - t]));
                } else if t < rev_v.len() + middle_v.len() {
                    assert(out@[t] == middle_v[t - rev_v.len()]);
                    let id = phrase@[t - rev_v.len()];
                    assert(middle_v[t - rev_v.len()]@ == self.dict@[id as int]);
                    lemma_id_of_entry(self.dict@, id as int);
                } else {
                    assert(out@[t] == end_v[t - rev_v.len() - middle_v.len()]);
                    assert(spec_has(
                        self.dict@,
                        views_of(end_v)[t - rev_v.len() - middle_v.len()],
                    ));
                }
            }
            let pre = views_of(rev_v);
            let suf = views_of(middle_v).skip(ws.len() as int) + views_of(end_v);
            assert forall|t: int| 0 <= t < ws.len() implies views_of(middle_v)[t] == ws[t] by {
                assert(middle_v[t]@ == self.dict@[phrase@[t] as int]);
            }
            assert(views_of(out@) =~= pre + ws + suf);
            assert(views_of(begin_v).len() == begin_v.len());
            assert(words_of(self.dict@, rids).len() == rids.len());
            assert(rids.len() == begin_v.len());
            assert(rev_v.len() == begin_v.len());
            assert forall|t: int| 0 <= t < rev_v.len() implies #[trigger] views_of(rev_v)[t]
                == words_of(self.dict@, rids.reverse())[t] by {
                let n = begin_v.len() as int;
                assert(rev_v[t] == begin_v[n - 1 - t]);
                assert(views_of(rev_v)[t] == rev_v[t]@);
                assert(views_of(begin_v)[n - 1 - t] == begin_v[n - 1 - t]@);
                assert(views_of(begin_v)[n - 1 - t] == words_of(self.dict@, rids)[n - 1 - t]);
                assert(words_of(self.dict@, rids)[n - 1 - t] == self.dict@[rids[n - 1 - t] as int]);
                assert(rids.len() > 0);
                assert(rids.reverse()[t] == rids[n - 1 - t]);
                assert(words_of(self.dict@, rids.reverse())[t] == self.dict@[rids.reverse()[t] as int]);
            }
            assert(views_of(rev_v) =~= words_of(self.dict@, rids.reverse()));
            assert forall|t: int| 0 <= t < middle_v.len() implies #[trigger] views_of(middle_v)[t]
                == words_of(self.dict@, phrase@)[t] by {
                assert(middle_v[t]@ == self.dict@[phrase@[t] as int]);
            }
            assert(views_of(middle_v) =~= words_of(self.dict@, phrase@));
            let all_ids = rids.reverse() + phrase@ + fids;
            assert(words_of(self.dict@, all_ids) =~= words_of(self.dict@, rids.reverse())
                + words_of(self.dict@, phrase@) + words_of(self.dict@, fids));
            assert(views_of(out@) =~= views_of(rev_v) + views_of(middle_v) + views_of(end_v));
            assert(views_of(out@) == words_of(self.dict@, all_ids));
            lemma_seeded_shape_intro(*self, start@, out@, phrase@, rids, fids);
        }
        Some(out)
    }

    /// Pick the candidate whose length is closest to the target; ties
    /// keep the earliest candidate.  Fails only when every attempt
    /// failed.
    pub fn choose_best(gens: Vec<Option<Vec<String>>>, target_words: i32) -> (r: Option<
        Vec<String>,
    >)
        ensures
            match r {
                Some(v) => best_pick(gens@, target_words as int, v),
                None => forall|j: int| 0 <= j < gens@.len() ==> (#[trigger] gens@[j]) is None,
            },
    {
        let ghost input = gens@;
        let mut gens = gens;
        let mut found: bool = false;
        let mut best_i: usize = 0;
        let mut best_dist: i128 = 0;
        let mut i: usize = 0;
        while i < gens.len()
            invariant
                i <= gens@.len(),
                found ==> {
                    &&& 0 <= best_i < i
                    &&& gens@[best_i as int] is Some
                    &&& gens@[best_i as int] matches Some(u) && best_dist == dist(
                        u@.len() as int,
                        target_words as int,
                    )
                    &&& forall|j: int|
                        0 <= j < i ==> ((#[trigger] gens@[j]) matches Some(u) ==> dist(
                            u@.len() as int,
                            target_words as int,
                        ) >= best_dist)
                    &&& forall|j: int|
                        0 <= j < best_i ==> ((#[trigger] gens@[j]) matches Some(u) ==> dist(
                            u@.len() as int,
                            target_words as int,
                        ) > best_dist)
                },
                !found ==> forall|j: int| 0 <= j < i ==> (#[trigger] gens@[j]) is None,
            decreases gens@.len() - i,
        {
            match &gens[i] {
                None => {},
                Some(v) => {
                    let l: i128 = v.len() as i128;
                    let t: i128 = target_words as i128;
                    let d: i128 = if l >= t {
                        l - t
                    } else {
                        t - l
                    };
                    if !found || d < best_dist {
                        found = true;
                        best_i = i;
                        best_dist = d;
                    }
                },
            }
            i = i + 1;
        }
        if !found {
            return None;
        }
        let r: Option<Vec<String>> = gens.remove(best_i);
        proof {
            if r is Some {
                let v = r->Some_0;
                assert(input[best_i as int] == Some(v));
                assert(best_pick(input, target_words as int, v));
            }
        }
        r
    }

    /// Generate `CANDIDATES` sequences around the seed phrase and return
    /// the one whose word count is closest to the target, joined with
    /// spaces.  A seed word never seen during ingestion guarantees
    /// failure; a result uses dictionary words only and echoes the seed.
    pub fn generate_best_from(&self, start: String, target_words: i32) -> (r: Option<String>)
        requires
            self.inv(),
        ensures
            r is None <==> self.seed_failure(start@),
            r matches Some(s) ==> exists|cands: Seq<Option<Vec<String>>>|
                {
                    &&& cands.len() == CANDIDATES
                    &&& forall|j: int|
                        0 <= j < cands.len() ==> self.seeded_candidate_ok(
                            start@,
                            #[trigger] cands[j],
                        )
                    &&& best_join(cands, target_words as int, s@)
                },
    {
        let mut rng = crate::rng::new_rng();
        let mut gens: Vec<Option<Vec<String>>> = Vec::new();
        let mut i: usize = 0;
        while i < CANDIDATES
            invariant
                self.inv(),
                i <= CANDIDATES,
                gens@.len() == i,
                forall|j: int|
                    0 <= j < i ==> self.seeded_candidate_ok(start@, #[trigger] gens@[j]),
            decreases CANDIDATES - i,
        {
            let g: Option<Vec<String>> = self.generate_one_from(&mut rng, start.as_str());
            gens.push(g);
            i = i + 1;
        }
        let ghost gseq = gens@;
        match Self::choose_best(gens, target_words) {
            None => {
                proof {
                    assert(self.seeded_candidate_ok(start@, gseq[0]));
                    assert(gseq[0] is None);
                }
                None
            },
            Some(v) => {
                let s = join_words(&v);
                proof {
                    assert(best_pick(gseq, target_words as int, v));
                    assert(s@ == join_spec(views_of(v@)));
                    assert(best_join(gseq, target_words as int, s@));
                }
                Some(s)
            },
        }
    }

    /// Generate `CANDIDATES` unconstrained sequences from the
    /// sentence-start context and return the one whose word count is
    /// closest to the target, joined with spaces.  Succeeds exactly when
    /// the chain has recorded anything at all.
    pub fn generate_best(&self, target_words: i32) -> (r: Option<String>)
        requires
            self.inv(),
        ensures
            r is Some <==> self.paths@.dom().contains(spec_pack(SENTINEL, SENTINEL)),
            r matches Some(s) ==> exists|cands: Seq<Option<Vec<String>>>|
                {
                    &&& cands.len() == CANDIDATES
                    &&& forall|j: int|
                        0 <= j < cands.len() ==> self.one_candidate_ok(#[trigger] cands[j])
                    &&& best_join(cands, target_words as int, s@)
                },
    {
        let mut rng = crate::rng::new_rng();
        let mut gens: Vec<Option<Vec<String>>> = Vec::new();
        let mut i: usize = 0;
        while i < CANDIDATES
            invariant
                self.inv(),
                i <= CANDIDATES,
                gens@.len() == i,
                forall|j: int| 0 <= j < i ==> self.one_candidate_ok(#[trigger] gens@[j]),
            decreases CANDIDATES - i,
        {
            let g: Option<Vec<String>> = self.generate_one(&mut rng);
            gens.push(g);
            i = i + 1;
        }
        let ghost gseq = gens@;
        match Self::choose_best(gens, target_words) {
            None => {
                proof {
                    assert(self.one_candidate_ok(gseq[0]));
                    assert(gseq[0] is None);
                }
                None
            },
            Some(v) => {
                let s = join_words(&v);
                proof {
                    assert(best_pick(gseq, target_words as int, v));
                    assert(s@ == join_spec(views_of(v@)));
                    assert(best_join(gseq, target_words as int, s@));
                }
                Some(s)
            },
        }
    }

    /// The sizes of the three components: number of interned strings,
    /// number of recorded contexts, number of tokens with recorded
    /// successors.
    pub fn sizes(&self) -> (r: (usize, usize, usize))
        ensures
            r.0 == self.dict@.len(),
            r.1 == self.paths@.dom().len(),
            r.2 == self.entries@.dom().len(),
    {
        (self.dict.len(), self.paths.len(), self.entries.len())
    }
}


} // verus!
