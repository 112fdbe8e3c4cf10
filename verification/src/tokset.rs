//! Compact frequency multiset of token identifiers.
//!
//! Each insertion adds one occurrence; occurrences are stored individually,
//! so the weight of an identifier under uniform index sampling is exactly
//! the number of times it was inserted.  Storage is one flat byte buffer,
//! split into three segments by identifier magnitude: one byte each for
//! identifiers up to `0xFF` (at most `0xFFFF` of them), two little-endian
//! bytes each for identifiers up to `0xFFFF` (at most `0xFFFF` of them),
//! and three little-endian bytes each for identifiers up to `0xFF_FFFF`.

use vstd::prelude::*;

verus! {

/// The capability every frequency-multiset encoding offers: adding one
/// occurrence of an identifier and drawing one occurrence with probability
/// proportional to its multiplicity.
pub trait TokSet: Sized {
    /// The stored occurrences, in logical index order.
    spec fn elems(&self) -> Seq<u32>;

    /// Representation invariant of the encoding.
    spec fn inv(&self) -> bool;

    /// An empty multiset.
    fn new() -> (r: Self)
        ensures
            r.inv(),
            r.elems() == Seq::<u32>::empty(),
    ;

    /// Whether no occurrence has been added.
    fn is_empty(&self) -> (r: bool)
        requires
            self.inv(),
        ensures
            r == (self.elems().len() == 0),
    ;

    /// Add one occurrence of `entry`; the count always grows by exactly one.
    fn add_entry(&mut self, entry: u32)
        requires
            old(self).inv(),
            entry <= 0xFFFFFF,
        ensures
            final(self).inv(),
            final(self).elems().len() == old(self).elems().len() + 1,
            final(self).elems().to_multiset() == old(self).elems().to_multiset().insert(entry),
    ;

    /// Draw one stored occurrence; only identifiers that were actually
    /// inserted can come back.
    fn sample(&self, rng: &mut rand::rngs::ThreadRng) -> (r: u32)
        requires
            self.inv(),
            self.elems().len() > 0,
        ensures
            self.elems().contains(r),
    ;
}

/// Packed multiset of token identifiers, grouped by magnitude.
///
/// `buf` holds `c1` one-byte entries, then `c2` two-byte entries, then
/// three-byte entries to the end.  Logical indices run through the three
/// segments in that order.
#[derive(PartialEq, Debug)]
pub struct BufferTokSet {
    /// One-byte entries, then two-byte entries, then three-byte entries.
    pub buf: Vec<u8>,
    /// Number of two-byte entries.
    pub c2: u16,
    /// Number of one-byte entries.
    pub c1: u16,
}

impl BufferTokSet {
    /// Number of bytes taken by the one- and two-byte segments.
    pub open spec fn seg12_bytes(&self) -> int {
        self.c1 + 2 * self.c2
    }

    /// Number of three-byte entries.
    pub open spec fn seg3_len(&self) -> int {
        (self.buf@.len() - self.seg12_bytes()) / 3
    }

    /// The byte buffer is exactly the three segments, back to back.
    pub open spec fn wf(&self) -> bool {
        &&& self.buf@.len() >= self.seg12_bytes()
        &&& (self.buf@.len() - self.seg12_bytes()) % 3 == 0
    }

    /// Total number of entries over all three segments.
    pub open spec fn total_len(&self) -> int {
        self.c1 + self.c2 + self.seg3_len()
    }

    /// The identifier stored at logical index `i`, decoded from its segment.
    pub open spec fn elem(&self, i: int) -> u32 {
        if i < self.c1 {
            self.buf@[i] as u32
        } else if i < self.c1 + self.c2 {
            let o = self.c1 + 2 * (i - self.c1);
            (self.buf@[o] + 256 * self.buf@[o + 1]) as u32
        } else {
            let o = self.seg12_bytes() + 3 * (i - self.c1 - self.c2);
            (self.buf@[o] + 256 * self.buf@[o + 1] + 65536 * self.buf@[o + 2]) as u32
        }
    }
}

impl View for BufferTokSet {
    type V = Seq<u32>;

    open spec fn view(&self) -> Seq<u32> {
        Seq::new(self.total_len() as nat, |i: int| self.elem(i))
    }
}

impl BufferTokSet {
    /// An empty multiset.
    pub fn new() -> (r: BufferTokSet)
        ensures
            r.wf(),
            r@ == Seq::<u32>::empty(),
    {
        let r = BufferTokSet { buf: Vec::new(), c2: 0, c1: 0 };
        proof {
            assert(r@ =~= Seq::<u32>::empty());
        }
        r
    }

    /// Number of entries.
    pub fn length(&self) -> (r: usize)
        requires
            self.wf(),
        ensures
            r == self@.len(),
    {
        let first2: usize = self.c1 as usize + self.c2 as usize;
        let leftover: usize = self.buf.len() - (self.c1 as usize) - (self.c2 as usize * 2);
        let byte3_length: usize = leftover / 3;
        first2 + byte3_length
    }

    /// Whether no entry has been added.
    pub fn is_empty(&self) -> (r: bool)
        requires
            self.wf(),
        ensures
            r == (self@.len() == 0),
    {
        self.length() == 0
    }

    /// The identifier at logical index `index`.
    pub fn get(&self, index: usize) -> (r: u32)
        requires
            self.wf(),
            index < self@.len(),
        ensures
            r == self@[index as int],
    {
        let offset1: usize = self.c1 as usize;
        let offset2: usize = offset1 + self.c2 as usize;
        if index < offset1 {
            self.buf[index] as u32
        } else if index < offset2 {
            let i: usize = offset1 + (index - offset1) * 2;
            let b1: u32 = self.buf[i] as u32;
            let b2: u32 = self.buf[i + 1] as u32;
            b1 + 256 * b2
        } else {
            let blen: usize = self.buf.len();
            proof {
                let l: int = blen - self.seg12_bytes();
                let q: int = index - offset2;
                assert(index < self.total_len());
                assert(q < l / 3);
                assert(l == 3 * (l / 3) + l % 3) by {
                    vstd::arithmetic::div_mod::lemma_fundamental_div_mod(l, 3);
                }
                assert(3 * q + 3 <= l);
                assert(offset1 + (self.c2 as usize) * 2 + q * 3 + 2 < self.buf@.len());
            }
            let i: usize = offset1 + (self.c2 as usize) * 2 + (index - offset2) * 3;
            let b1: u32 = self.buf[i] as u32;
            let b2: u32 = self.buf[i + 1] as u32;
            let b3: u32 = self.buf[i + 2] as u32;
            b1 + 256 * b2 + 65536 * b3
        }
    }

    /// Place a one-byte entry at the end of the first segment.
    fn add1(&mut self, tok: u32)
        requires
            old(self).wf(),
            tok <= 0xFF,
            old(self).c1 < 0xFFFF,
        ensures
            final(self).wf(),
            final(self)@ == old(self)@.insert(old(self).c1 as int, tok),
            final(self).c1 == old(self).c1 + 1,
            final(self).c2 == old(self).c2,
    {
        let ghost pre = *self;
        self.buf.insert(self.c1 as usize, tok as u8);
        self.c1 = self.c1 + 1;
        proof {
            let p = pre.c1 as int;
            pre.buf@.insert_ensures(p, tok as u8);
            pre@.insert_ensures(p, tok);
            let target = pre@.insert(p, tok);
            assert(self.buf@.len() == pre.buf@.len() + 1);
            assert(self@.len() == target.len());
            assert forall|i: int| 0 <= i < self@.len() implies self@[i] == target[i] by {
                if i < p {
                    assert(self.buf@[i] == pre.buf@[i]);
                    assert(self@[i] == pre@[i]);
                } else if i == p {
                    assert(self.buf@[p] == tok as u8);
                } else if i < self.c1 + self.c2 {
                    let o = self.c1 + 2 * (i - self.c1);
                    assert(self.buf@[o] == pre.buf@[o - 1]);
                    assert(self.buf@[o + 1] == pre.buf@[o]);
                    assert(o - 1 == pre.c1 + 2 * ((i - 1) - pre.c1));
                    assert(self@[i] == pre@[i - 1]);
                } else {
                    let o = self.seg12_bytes() + 3 * (i - self.c1 - self.c2);
                    assert(self.buf@[o] == pre.buf@[o - 1]);
                    assert(self.buf@[o + 1] == pre.buf@[o]);
                    assert(self.buf@[o + 2] == pre.buf@[o + 1]);
                    assert(o - 1 == pre.seg12_bytes() + 3 * ((i - 1) - pre.c1 - pre.c2));
                    assert(self@[i] == pre@[i - 1]);
                }
            }
            assert(self@ =~= target);
        }
    }

    /// Place a two-byte little-endian entry at the end of the second segment.
    #[verifier::rlimit(50)]
    fn add2(&mut self, tok: u32)
        requires
            old(self).wf(),
            tok <= 0xFFFF,
            old(self).c2 < 0xFFFF,
        ensures
            final(self).wf(),
            final(self)@ == old(self)@.insert(old(self).c1 + old(self).c2, tok),
            final(self).c1 == old(self).c1,
            final(self).c2 == old(self).c2 + 1,
    {
        let ghost pre = *self;
        let byte1: u8 = (tok % 256) as u8;
        let byte2: u8 = (tok / 256) as u8;
        let insert_at: usize = self.c1 as usize + self.c2 as usize * 2;
        self.buf.insert(insert_at, byte1);
        let ghost mid = self.buf@;
        self.buf.insert(insert_at + 1, byte2);
        self.c2 = self.c2 + 1;
        proof {
            let p = pre.seg12_bytes();
            let ip = pre.c1 + pre.c2;
            pre.buf@.insert_ensures(p, byte1);
            mid.insert_ensures(p + 1, byte2);
            pre@.insert_ensures(ip, tok);
            let target = pre@.insert(ip, tok);
            vstd::arithmetic::div_mod::lemma_fundamental_div_mod(tok as int, 256);
            assert(byte1 + 256 * byte2 == tok);
            assert(self.buf@.len() == pre.buf@.len() + 2);
            assert forall|j: int| 0 <= j < p implies self.buf@[j] == pre.buf@[j] by {
                assert(mid[j] == pre.buf@[j]);
            }
            assert forall|j: int| p + 1 < j < self.buf@.len() implies self.buf@[j] == pre.buf@[j
                - 2] by {
                assert(self.buf@[j] == mid[j - 1]);
                assert(mid[j - 1] == pre.buf@[j - 2]);
            }
            assert(self.buf@[p] == mid[p] == byte1);
            assert(self.buf@[p + 1] == byte2);
            assert(self@.len() == target.len());
            assert forall|i: int| 0 <= i < self@.len() implies self@[i] == target[i] by {
                if i < pre.c1 {
                    assert(self@[i] == pre@[i]);
                } else if i < ip {
                    let o = self.c1 + 2 * (i - self.c1);
                    assert(o + 1 < p);
                    assert(self@[i] == pre@[i]);
                } else if i == ip {
                    let o = self.c1 + 2 * (i - self.c1);
                    assert(o == p);
                    assert(self@[i] == tok);
                } else {
                    let o = self.seg12_bytes() + 3 * (i - self.c1 - self.c2);
                    assert(o - 2 == pre.seg12_bytes() + 3 * ((i - 1) - pre.c1 - pre.c2));
                    assert(self.buf@[o] == pre.buf@[o - 2]);
                    assert(self.buf@[o + 1] == pre.buf@[o - 1]);
                    assert(self.buf@[o + 2] == pre.buf@[o]);
                    assert(self@[i] == pre@[i - 1]);
                }
            }
            assert(self@ =~= target);
        }
    }

    /// Append a three-byte little-endian entry to the last segment.
    fn add3(&mut self, tok: u32)
        requires
            old(self).wf(),
            tok <= 0xFFFFFF,
        ensures
            final(self).wf(),
            final(self)@ == old(self)@.push(tok),
            final(self).c1 == old(self).c1,
            final(self).c2 == old(self).c2,
    {
        let ghost pre = *self;
        let byte1: u8 = (tok % 256) as u8;
        let byte2: u8 = ((tok / 256) % 256) as u8;
        let byte3: u8 = (tok / 65536) as u8;
        self.buf.push(byte1);
        self.buf.push(byte2);
        self.buf.push(byte3);
        proof {
            let target = pre@.push(tok);
            let l = pre.buf@.len() as int;
            assert(byte1 + 256 * byte2 + 65536 * byte3 == tok) by {
                vstd::arithmetic::div_mod::lemma_fundamental_div_mod(tok as int, 256);
                vstd::arithmetic::div_mod::lemma_fundamental_div_mod(tok as int / 256, 256);
                vstd::arithmetic::div_mod::lemma_div_denominator(tok as int, 256, 256);
            }
            assert((self.buf@.len() - self.seg12_bytes()) % 3 == 0);
            assert(self.total_len() == pre.total_len() + 1);
            assert(self@.len() == target.len());
            assert forall|i: int| 0 <= i < self@.len() implies self@[i] == target[i] by {
                if i < pre.total_len() {
                    if i < self.c1 + self.c2 {
                        assert(self@[i] == pre@[i]);
                    } else {
                        let o = self.seg12_bytes() + 3 * (i - self.c1 - self.c2);
                        assert(o + 2 < l);
                        assert(self@[i] == pre@[i]);
                    }
                } else {
                    let o = self.seg12_bytes() + 3 * (i - self.c1 - self.c2);
                    assert(o == l);
                    assert(self.buf@[o] == byte1);
                    assert(self.buf@[o + 1] == byte2);
                    assert(self.buf@[o + 2] == byte3);
                    assert(self@[i] == tok);
                }
            }
            assert(self@ =~= target);
        }
    }

    /// Add one occurrence of `entry`, choosing the narrowest segment that
    /// still has room.  Identifiers above `0xFF_FFFF` do not fit the
    /// three-byte encoding and are ruled out by the precondition.
    pub fn add(&mut self, entry: u32)
        requires
            old(self).wf(),
            entry <= 0xFFFFFF,
        ensures
            final(self).wf(),
            final(self)@.len() == old(self)@.len() + 1,
            final(self)@.to_multiset() == old(self)@.to_multiset().insert(entry),
            (entry <= 0xFF && old(self).c1 < 0xFFFF) ==> {
                &&& final(self)@ == old(self)@.insert(old(self).c1 as int, entry)
                &&& final(self).c1 == old(self).c1 + 1
                &&& final(self).c2 == old(self).c2
            },
            (!(entry <= 0xFF && old(self).c1 < 0xFFFF) && entry <= 0xFFFF && old(self).c2
                < 0xFFFF) ==> {
                &&& final(self)@ == old(self)@.insert(old(self).c1 + old(self).c2, entry)
                &&& final(self).c1 == old(self).c1
                &&& final(self).c2 == old(self).c2 + 1
            },
            (!(entry <= 0xFF && old(self).c1 < 0xFFFF) && !(entry <= 0xFFFF && old(self).c2
                < 0xFFFF)) ==> {
                &&& final(self)@ == old(self)@.push(entry)
                &&& final(self).c1 == old(self).c1
                &&& final(self).c2 == old(self).c2
            },
    {
        proof {
            broadcast use vstd::seq_lib::group_to_multiset_ensures;

        }
        if entry <= 0xFF && self.c1 < 0xFFFF {
            self.add1(entry)
        } else if entry <= 0xFFFF && self.c2 < 0xFFFF {
            self.add2(entry)
        } else {
            self.add3(entry)
        }
    }
}

/// The logical index at which `add` places `entry`: the end of the
/// narrowest segment that still has room for its magnitude.
pub open spec fn add_position(pre: BufferTokSet, entry: u32) -> int {
    if entry <= 0xFF && pre.c1 < 0xFFFF {
        pre.c1 as int
    } else if entry <= 0xFFFF && pre.c2 < 0xFFFF {
        pre.c1 + pre.c2
    } else {
        pre@.len() as int
    }
}

/// Round trip across segment boundaries: however the multiset looked
/// before — whatever mixture of magnitudes was inserted earlier — an
/// insertion lands at its segment's end and reading that logical index
/// back yields the inserted identifier unchanged, while every other
/// entry keeps its value.
pub proof fn lemma_add_readback(pre: BufferTokSet, post: BufferTokSet, entry: u32)
    requires
        pre.wf(),
        entry <= 0xFFFFFF,
        (entry <= 0xFF && pre.c1 < 0xFFFF) ==> post@ == pre@.insert(pre.c1 as int, entry),
        (!(entry <= 0xFF && pre.c1 < 0xFFFF) && entry <= 0xFFFF && pre.c2 < 0xFFFF) ==> post@
            == pre@.insert(pre.c1 + pre.c2, entry),
        (!(entry <= 0xFF && pre.c1 < 0xFFFF) && !(entry <= 0xFFFF && pre.c2 < 0xFFFF)) ==> post@
            == pre@.push(entry),
    ensures
        0 <= add_position(pre, entry) <= pre@.len(),
        post@.len() == pre@.len() + 1,
        post@[add_position(pre, entry)] == entry,
        forall|i: int|
            0 <= i < add_position(pre, entry) ==> post@[i] == pre@[i],
        forall|i: int|
            add_position(pre, entry) <= i < pre@.len() ==> post@[i + 1] == pre@[i],
{
    let p = add_position(pre, entry);
    assert(pre.c1 + pre.c2 <= pre@.len());
    if entry <= 0xFF && pre.c1 < 0xFFFF {
        pre@.insert_ensures(p, entry);
    } else if entry <= 0xFFFF && pre.c2 < 0xFFFF {
        pre@.insert_ensures(p, entry);
    } else {
        assert(post@ == pre@.push(entry));
    }
}

impl TokSet for BufferTokSet {
    open spec fn elems(&self) -> Seq<u32> {
        self@
    }

    open spec fn inv(&self) -> bool {
        self.wf()
    }

    fn new() -> (r: BufferTokSet) {
        BufferTokSet::new()
    }

    fn is_empty(&self) -> (r: bool) {
        BufferTokSet::is_empty(self)
    }

    fn add_entry(&mut self, entry: u32) {
        self.add(entry);
    }

    fn sample(&self, rng: &mut rand::rngs::ThreadRng) -> (r: u32) {
        let n: usize = crate::rng::random_index(rng, self.length());
        let r = self.get(n);
        proof {
            assert(self@[n as int] == r);
        }
        r
    }
}

} // verus!
