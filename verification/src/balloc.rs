//! The buddy memory allocator: order-indexed free lists threaded
//! intrusively through the arena itself, split-on-demand and
//! coalesce-on-free.
//!
//! A free block's first machine word stores the offset of the next free
//! block of the same order, or a sentinel when it is the last. The
//! verified state carries, as ghost data, the contents of each free list
//! and the set of live (handed-out) blocks; well-formedness ties the ghost
//! lists to the bytes of the arena and guarantees that all tracked blocks
//! are aligned, in bounds, and pairwise disjoint.

use crate::{MAX_ORDER, MAX_TOTAL, MIN_BLOCK};
use vstd::arithmetic::div_mod::{
    lemma_div_by_multiple, lemma_fundamental_div_mod, lemma_mod_multiples_basic, lemma_mod_mod,
};
use vstd::bytes::{
    lemma_auto_spec_u64_to_from_le_bytes, spec_u64_from_le_bytes, spec_u64_to_le_bytes,
    u64_from_le_bytes, u64_to_le_bytes,
};
use vstd::prelude::*;
use vstd::seq_lib::*;
use vstd::set_lib::{lemma_int_range, lemma_len_subset, set_int_range};
use vstd::slice::slice_subrange;

verus! {

/// The size in bytes of a block of the given order.
pub open spec fn bsize(o: int) -> int
    decreases o,
{
    if o <= 0 {
        64
    } else {
        2 * bsize(o - 1)
    }
}

/// A block of the given order and offset lies within the arena and is
/// aligned to its own size.
pub open spec fn valid_block(off: int, o: int) -> bool {
    &&& 0 <= o <= MAX_ORDER
    &&& 0 <= off
    &&& off % bsize(o) == 0
    &&& off + bsize(o) <= MAX_TOTAL
}

/// The unique same-order block this block was split from: the block whose
/// index differs in the least significant bit.
pub open spec fn buddy_of(off: int, o: int) -> int {
    if (off / bsize(o)) % 2 == 0 {
        off + bsize(o)
    } else {
        off - bsize(o)
    }
}

/// Two blocks occupy disjoint address ranges.
pub open spec fn blocks_disjoint(off1: int, o1: int, off2: int, o2: int) -> bool {
    off1 + bsize(o1) <= off2 || off2 + bsize(o2) <= off1
}

/// The machine word stored at a byte offset of the arena, read
/// little-endian.
pub open spec fn word_at(a: Seq<u8>, off: int) -> int {
    spec_u64_from_le_bytes(a.subrange(off, off + 8)) as int
}

/// The sentinel word marking the end of a free list.
pub open spec fn nil_word() -> int {
    u64::MAX as int
}

pub proof fn lemma_bsize_pos(o: int)
    ensures
        bsize(o) >= 64,
    decreases o,
{
    if o > 0 {
        lemma_bsize_pos(o - 1);
    }
}

pub proof fn lemma_bsize_mono(o1: int, o2: int)
    requires
        o1 <= o2,
    ensures
        bsize(o1) <= bsize(o2),
        0 < o2 && o1 < o2 ==> 2 * bsize(o1) <= bsize(o2),
    decreases o2 - o1,
{
    lemma_bsize_pos(o1);
    if o1 < o2 {
        lemma_bsize_mono(o1, o2 - 1);
        lemma_bsize_pos(o2 - 1);
    }
}

pub proof fn lemma_bsize_total()
    ensures
        bsize(MAX_ORDER as int) == MAX_TOTAL,
{
    reveal_with_fuel(bsize, 16);
}

/// The order whose block size is the given size (the base-two logarithm of
/// `n / MIN_BLOCK`, for sizes that are such block sizes).
pub open spec fn order_of(n: int) -> int
    decreases n,
{
    if n <= 64 {
        0
    } else {
        1 + order_of(n / 2)
    }
}

pub proof fn lemma_order_of_bsize(o: int)
    requires
        0 <= o,
    ensures
        order_of(bsize(o)) == o,
    decreases o,
{
    if o > 0 {
        lemma_bsize_pos(o - 1);
        lemma_order_of_bsize(o - 1);
        assert(bsize(o) / 2 == bsize(o - 1));
    }
}

/// A block identified by its byte offset within the arena and its length
/// in bytes. The offset `usize::MAX` denotes "no block".
#[derive(Clone, Copy, Debug, PartialEq, Eq, Structural)]
pub struct Blockinfo {
    /// Offset of the block within the arena.
    pub offset: usize,
    /// Length of the block in bytes.
    pub length: usize,
}

/// The buddy allocation state: the arena, the head offset of the free
/// list of each order, and, as ghost data, the list contents and the set
/// of live blocks.
pub struct Algorithm {
    arena: Vec<u8>,
    heads: Vec<usize>,
    lists: Ghost<Seq<Seq<int>>>,
    live: Ghost<Set<(int, int)>>,
}

impl Algorithm {
    /// The ghost contents of the free lists, per order, in link order.
    pub closed spec fn free_lists(self) -> Seq<Seq<int>> {
        self.lists@
    }

    /// The ghost set of live blocks, as (offset, order) pairs.
    pub closed spec fn live_blocks(self) -> Set<(int, int)> {
        self.live@
    }

    /// The free list of one order is well formed: its head field names its
    /// first element, every element is a valid block of that order, and
    /// each element's first word links to the next (or holds the
    /// sentinel).
    pub closed spec fn list_wf(self, o: int) -> bool {
        let l = self.lists@[o];
        &&& (l.len() == 0 ==> self.heads@[o] == usize::MAX)
        &&& (l.len() > 0 ==> self.heads@[o] == l[0])
        &&& forall|i: int| 0 <= i < l.len() ==> valid_block(#[trigger] l[i], o)
        &&& forall|i: int|
            0 <= i < l.len() ==> #[trigger] word_at(self.arena@, l[i]) == (if i + 1 < l.len() {
                l[i + 1]
            } else {
                nil_word()
            })
    }

    /// Distinct free blocks never overlap, within one order or across
    /// orders.
    pub closed spec fn free_free_disjoint(self) -> bool {
        forall|o1: int, i1: int, o2: int, i2: int|
            0 <= o1 <= MAX_ORDER && 0 <= i1 < self.lists@[o1].len() && 0 <= o2 <= MAX_ORDER && 0
                <= i2 < self.lists@[o2].len() && (o1 != o2 || i1 != i2) ==> blocks_disjoint(
                #[trigger] self.lists@[o1][i1],
                o1,
                #[trigger] self.lists@[o2][i2],
                o2,
            )
    }

    /// Live blocks are valid, pairwise disjoint, and disjoint from every
    /// free block.
    pub closed spec fn live_ok(self) -> bool {
        &&& forall|b: (int, int)| #[trigger] self.live@.contains(b) ==> valid_block(b.0, b.1)
        &&& forall|b1: (int, int), b2: (int, int)|
            #[trigger] self.live@.contains(b1) && #[trigger] self.live@.contains(b2) && b1 != b2
                ==> blocks_disjoint(b1.0, b1.1, b2.0, b2.1)
        &&& forall|b: (int, int), o: int, i: int|
            #[trigger] self.live@.contains(b) && 0 <= o <= MAX_ORDER && 0 <= i
                < self.lists@[o].len() ==> blocks_disjoint(b.0, b.1, #[trigger] self.lists@[o][i], o)
    }

    /// No two buddies are simultaneously free at the same order: the
    /// coalescing step has always been taken where possible.
    pub closed spec fn coalesced(self) -> bool {
        forall|o: int, i: int, j: int|
            0 <= o <= MAX_ORDER && 0 <= i < self.lists@[o].len() && 0 <= j
                < self.lists@[o].len() ==> #[trigger] self.lists@[o][j] != buddy_of(
                #[trigger] self.lists@[o][i],
                o,
            )
    }

    /// Address `ad` lies inside some tracked (free or live) block.
    pub closed spec fn covered(self, ad: int) -> bool {
        (exists|o: int, i: int|
            0 <= o <= MAX_ORDER && 0 <= i < self.lists@[o].len() && (#[trigger] self.lists@[o][i])
                <= ad && ad < self.lists@[o][i] + bsize(o)) || (exists|b: (int, int)|
            #[trigger] self.live@.contains(b) && b.0 <= ad && ad < b.0 + bsize(b.1))
    }

    /// Every arena address lies inside some tracked block: together the
    /// free lists and the live blocks account for the whole arena.
    pub closed spec fn covers(self) -> bool {
        forall|ad: int| 0 <= ad < MAX_TOTAL ==> self.covered(ad)
    }

    /// The allocator invariant.
    pub closed spec fn wf(self) -> bool {
        &&& self.arena@.len() == MAX_TOTAL
        &&& self.heads@.len() == MAX_ORDER + 1
        &&& self.lists@.len() == MAX_ORDER + 1
        &&& forall|o: int| 0 <= o <= MAX_ORDER ==> self.list_wf(o)
        &&& self.free_free_disjoint()
        &&& self.live_ok()
        &&& self.coalesced()
        &&& self.covers()
    }

    /// A freshly initialized allocator: every list empty except the top
    /// order, which holds the single block spanning the whole arena.
    pub fn new() -> (r: Self)
        ensures
            r.wf(),
            r.live_blocks() == Set::<(int, int)>::empty(),
            forall|o: int| 0 <= o < MAX_ORDER ==> (#[trigger] r.free_lists()[o]) == Seq::<
                int,
            >::empty(),
            r.free_lists()[MAX_ORDER as int] == seq![0int],
    {
        let mut arena: Vec<u8> = vec![0u8; MAX_TOTAL];
        word_write(&mut arena, 0, u64::MAX);
        let mut heads: Vec<usize> = Vec::new();
        let mut o: usize = 0;
        while o < MAX_ORDER
            invariant
                0 <= o <= MAX_ORDER,
                heads@.len() == o,
                forall|j: int| 0 <= j < o ==> heads@[j] == usize::MAX,
            decreases MAX_ORDER - o,
        {
            heads.push(usize::MAX);
            o = o + 1;
        }
        heads.push(0);
        let ghost mut lists = Seq::<Seq<int>>::new((MAX_ORDER + 1) as nat, |o: int| Seq::empty());
        proof {
            lists = lists.update(MAX_ORDER as int, seq![0int]);
        }
        let r = Self { arena, heads, lists: Ghost(lists), live: Ghost(Set::empty()) };
        proof {
            lemma_bsize_total();
            lemma_bsize_pos(MAX_ORDER as int);
            lemma_mod_multiples_basic(0, bsize(MAX_ORDER as int));
            assert(r.lists@[MAX_ORDER as int] == seq![0int]);
            assert(valid_block(0, MAX_ORDER as int));
            assert forall|o2: int| 0 <= o2 <= MAX_ORDER implies r.list_wf(o2) by {
                if o2 < MAX_ORDER {
                    assert(r.lists@[o2].len() == 0);
                } else {
                    assert(r.lists@[o2] == seq![0int]);
                    assert(r.lists@[o2][0] == 0);
                    assert(word_at(r.arena@, 0) == nil_word());
                }
            }
            assert forall|ad: int| 0 <= ad < MAX_TOTAL implies r.covered(ad) by {
                assert(0 <= MAX_ORDER <= MAX_ORDER && 0 < r.lists@[MAX_ORDER as int].len()
                    && r.lists@[MAX_ORDER as int][0] <= ad < r.lists@[MAX_ORDER as int][0] + bsize(
                    MAX_ORDER as int,
                ));
            }
        }
        r
    }
}

/// What `alloc` does to the free lists: pop the head at the requested
/// order, or recursively obtain a block one order up, keep its lower half,
/// and leave its upper half free at the requested order.
pub open spec fn spec_alloc(lists: Seq<Seq<int>>, order: int) -> Option<(int, Seq<Seq<int>>)>
    decreases MAX_ORDER + 1 - order,
{
    if order < 0 || order > MAX_ORDER {
        None
    } else if lists[order].len() > 0 {
        Some((lists[order][0], lists.update(order, lists[order].drop_first())))
    } else {
        match spec_alloc(lists, order + 1) {
            Option::None => None,
            Option::Some((off, ls)) => Some((off, ls.update(order, seq![off + bsize(order)]))),
        }
    }
}

/// `spec_alloc` touches no list below the requested order and keeps the
/// number of lists.
pub proof fn lemma_spec_alloc_frame(lists: Seq<Seq<int>>, order: int)
    requires
        lists.len() == MAX_ORDER + 1,
        spec_alloc(lists, order) is Some,
    ensures
        (spec_alloc(lists, order)->Some_0).1.len() == lists.len(),
        forall|j: int|
            0 <= j < order ==> (spec_alloc(lists, order)->Some_0).1[j] == (
            #[trigger] lists[j]),
    decreases MAX_ORDER + 1 - order,
{
    assert(0 <= order <= MAX_ORDER);
    let r1 = (spec_alloc(lists, order)->Some_0).1;
    if lists[order].len() > 0 {
        let u = lists.update(order, lists[order].drop_first());
        assert(r1 == u);
        assert(u.len() == lists.len());
        assert forall|j: int| 0 <= j < order implies r1[j] == lists[j] by {
            assert(u[j] == lists[j]);
        }
    } else {
        assert(spec_alloc(lists, order + 1) is Some);
        lemma_spec_alloc_frame(lists, order + 1);
        let ol = spec_alloc(lists, order + 1)->Some_0;
        let u = ol.1.update(order, seq![ol.0 + bsize(order)]);
        assert(r1 == u);
        assert(u.len() == ol.1.len());
        assert(r1.len() == lists.len());
        assert forall|j: int| 0 <= j < order implies r1[j] == lists[j] by {
            assert(u[j] == ol.1[j]);
        }
    }
}

/// Allocation succeeds exactly when the order is in range and some list at
/// that order or above is non-empty.
pub proof fn lemma_spec_alloc_some(lists: Seq<Seq<int>>, order: int)
    ensures
        spec_alloc(lists, order) is Some <==> (0 <= order <= MAX_ORDER && exists|o2: int|
            order <= o2 <= MAX_ORDER && (#[trigger] lists[o2]).len() > 0),
    decreases MAX_ORDER + 1 - order,
{
    if 0 <= order <= MAX_ORDER {
        if lists[order].len() > 0 {
        } else {
            lemma_spec_alloc_some(lists, order + 1);
        }
    }
}

impl Algorithm {
    /// Allocate a block of the given order. On failure the returned offset
    /// is `usize::MAX`, the length is zero, and the state is unchanged;
    /// failure happens exactly when the order is beyond `MAX_ORDER` or no
    /// free block of this order or above exists.
    pub fn allocate(&mut self, order: usize) -> (r: Blockinfo)
        requires
            old(self).wf(),
        ensures
            final(self).wf(),
            match spec_alloc(old(self).free_lists(), order as int) {
                Option::None => r.offset == usize::MAX && r.length == 0 && *final(self) == *old(
                    self,
                ),
                Option::Some(ol) => {
                    &&& r.offset == ol.0
                    &&& r.length == bsize(order as int)
                    &&& final(self).free_lists() == ol.1
                    &&& final(self).live_blocks() == old(self).live_blocks().insert(
                        (ol.0, order as int),
                    )
                    &&& forall|o3: int| !old(self).live_blocks().contains((ol.0, o3))
                    &&& valid_block(ol.0, order as int)
                },
            },
        decreases MAX_ORDER + 1 - order,
    {
        if order > MAX_ORDER {
            return Blockinfo { offset: usize::MAX, length: 0 };
        }
        let ghost l = self.lists@[order as int];
        let head = self.heads[order];
        if head != usize::MAX {
            proof {
                assert(self.list_wf(order as int));
                assert(l.len() > 0);
                assert(head == l[0]);
                assert(valid_block(head as int, order as int));
                lemma_bsize_pos(order as int);
            }
            let next = word_read(&self.arena, head);
            let new_head: usize = if next == u64::MAX {
                usize::MAX
            } else {
                proof {
                    if l.len() > 1 {
                        assert(next == l[1]);
                        assert(valid_block(l[1], order as int));
                    }
                }
                next as usize
            };
            self.heads.set(order, new_head);
            proof {
                self.lists@ = self.lists@.update(order as int, l.drop_first());
                self.live@ = self.live@.insert((head as int, order as int));
            }
            let length = block_size(order);
            proof {
                let os = *old(self);
                let ns = *self;
                let oi = order as int;
                assert forall|o3: int| !os.live@.contains((head as int, o3)) by {
                    if os.live@.contains((head as int, o3)) {
                        assert(valid_block(head as int, o3));
                        lemma_bsize_pos(o3);
                        assert(blocks_disjoint(head as int, o3, l[0], oi));
                    }
                }
                assert(ns.live@ =~= os.live@.insert((head as int, oi)));
                assert forall|o: int| 0 <= o <= MAX_ORDER implies ns.list_wf(o) by {
                    assert(os.list_wf(o));
                    if o == oi {
                        let l2 = ns.lists@[o];
                        assert(l2 == l.drop_first());
                        assert forall|i: int| 0 <= i < l2.len() implies valid_block(
                            #[trigger] l2[i],
                            o,
                        ) by {
                            assert(l2[i] == l[i + 1]);
                        }
                        assert forall|i: int| 0 <= i < l2.len() implies #[trigger] word_at(
                            ns.arena@,
                            l2[i],
                        ) == (if i + 1 < l2.len() {
                            l2[i + 1]
                        } else {
                            nil_word()
                        }) by {
                            assert(l2[i] == l[i + 1]);
                            assert(word_at(os.arena@, l[i + 1]) == (if i + 2 < l.len() {
                                l[i + 2]
                            } else {
                                nil_word()
                            }));
                        }
                    }
                }
                assert forall|o1: int, i1: int, o2: int, i2: int|
                    0 <= o1 <= MAX_ORDER && 0 <= i1 < ns.lists@[o1].len() && 0 <= o2 <= MAX_ORDER
                        && 0 <= i2 < ns.lists@[o2].len() && (o1 != o2 || i1 != i2) implies
                    blocks_disjoint(
                    #[trigger] ns.lists@[o1][i1],
                    o1,
                    #[trigger] ns.lists@[o2][i2],
                    o2,
                ) by {
                    let j1: int = if o1 == oi {
                        i1 + 1
                    } else {
                        i1
                    };
                    let j2: int = if o2 == oi {
                        i2 + 1
                    } else {
                        i2
                    };
                    assert(ns.lists@[o1][i1] == os.lists@[o1][j1]);
                    assert(ns.lists@[o2][i2] == os.lists@[o2][j2]);
                }
                assert(ns.live_ok()) by {
                    assert forall|b: (int, int)| #[trigger] ns.live@.contains(b) implies
                        valid_block(b.0, b.1) by {
                        if b != (head as int, oi) {
                            assert(os.live@.contains(b));
                        }
                    }
                    assert forall|b1: (int, int), b2: (int, int)|
                        #[trigger] ns.live@.contains(b1) && #[trigger] ns.live@.contains(b2) && b1
                            != b2 implies blocks_disjoint(b1.0, b1.1, b2.0, b2.1) by {
                        if b1 == (head as int, oi) {
                            assert(os.live@.contains(b2));
                            assert(blocks_disjoint(b2.0, b2.1, l[0], oi));
                        } else if b2 == (head as int, oi) {
                            assert(os.live@.contains(b1));
                            assert(blocks_disjoint(b1.0, b1.1, l[0], oi));
                        } else {
                            assert(os.live@.contains(b1));
                            assert(os.live@.contains(b2));
                        }
                    }
                    assert forall|b: (int, int), o: int, i: int|
                        #[trigger] ns.live@.contains(b) && 0 <= o <= MAX_ORDER && 0 <= i
                            < ns.lists@[o].len() implies blocks_disjoint(
                        b.0,
                        b.1,
                        #[trigger] ns.lists@[o][i],
                        o,
                    ) by {
                        let j: int = if o == oi {
                            i + 1
                        } else {
                            i
                        };
                        assert(ns.lists@[o][i] == os.lists@[o][j]);
                        if b == (head as int, oi) {
                            assert(blocks_disjoint(os.lists@[oi][0], oi, os.lists@[o][j], o));
                        } else {
                            assert(os.live@.contains(b));
                        }
                    }
                }
                assert(ns.coalesced()) by {
                    assert forall|o: int, i: int, j: int|
                        0 <= o <= MAX_ORDER && 0 <= i < ns.lists@[o].len() && 0 <= j
                            < ns.lists@[o].len() implies #[trigger] ns.lists@[o][j] != buddy_of(
                        #[trigger] ns.lists@[o][i],
                        o,
                    ) by {
                        let i2: int = if o == oi {
                            i + 1
                        } else {
                            i
                        };
                        let j2: int = if o == oi {
                            j + 1
                        } else {
                            j
                        };
                        assert(ns.lists@[o][i] == os.lists@[o][i2]);
                        assert(ns.lists@[o][j] == os.lists@[o][j2]);
                    }
                }
                assert forall|ad: int| 0 <= ad < MAX_TOTAL implies ns.covered(ad) by {
                    assert(os.covered(ad));
                    if exists|o: int, i: int|
                        0 <= o <= MAX_ORDER && 0 <= i < os.lists@[o].len() && (
                        #[trigger] os.lists@[o][i]) <= ad && ad < os.lists@[o][i] + bsize(o) {
                        let (o, i): (int, int) = choose|o: int, i: int|
                            0 <= o <= MAX_ORDER && 0 <= i < os.lists@[o].len() && (
                            #[trigger] os.lists@[o][i]) <= ad && ad < os.lists@[o][i] + bsize(o);
                        if o == oi && i == 0 {
                            assert(ns.live@.contains((head as int, oi)));
                            assert(ns.covered(ad));
                        } else {
                            let i2: int = if o == oi {
                                i - 1
                            } else {
                                i
                            };
                            assert(ns.lists@[o][i2] == os.lists@[o][i]);
                            assert(ns.covered(ad));
                        }
                    } else {
                        let b = choose|b: (int, int)|
                            #[trigger] os.live@.contains(b) && b.0 <= ad && ad < b.0 + bsize(b.1);
                        assert(ns.live@.contains(b));
                        assert(ns.covered(ad));
                    }
                }
            }
            return Blockinfo { offset: head, length };
        }
        proof {
            assert(self.list_wf(order as int));
            if self.lists@[order as int].len() > 0 {
                assert(valid_block(self.lists@[order as int][0], order as int));
                lemma_bsize_pos(order as int);
                assert(false);
            }
        }
        let block = self.allocate(order + 1);
        if block.offset == usize::MAX {
            proof {
                if spec_alloc(old(self).lists@, order as int + 1) is Some {
                    let ol = spec_alloc(old(self).lists@, order as int + 1)->Some_0;
                    assert(valid_block(ol.0, order as int + 1));
                    lemma_bsize_pos(order as int + 1);
                    assert(false);
                }
                assert(spec_alloc(old(self).lists@, order as int) is None);
            }
            return Blockinfo { offset: usize::MAX, length: 0 };
        }
        let length = block_size(order);
        let ghost mid = *self;
        let ghost oi = order as int;
        let ghost off = block.offset as int;
        proof {
            lemma_spec_alloc_frame(old(self).lists@, oi + 1);
            assert(mid.lists@[oi] == old(self).lists@[oi]);
            assert(mid.lists@[oi].len() == 0);
            assert(mid.live@.contains((off, oi + 1)));
            assert(valid_block(off, oi + 1));
            lemma_bsize_pos(oi);
            assert(bsize(oi + 1) == 2 * bsize(oi));
            assert(off % (bsize(oi) * 2) == 0);
            lemma_mod_mod(off, bsize(oi), 2);
            lemma_mod_multiples_basic(0, bsize(oi));
            assert(off % bsize(oi) == 0);
        }
        let buddy_offset = block.offset + length;
        proof {
            assert(off + 2 * bsize(oi) <= MAX_TOTAL);
            lemma_mod_multiples_basic(off / bsize(oi) + 1, bsize(oi));
            assert((off / bsize(oi) + 1) * bsize(oi) == off / bsize(oi) * bsize(oi) + bsize(oi))
                by (nonlinear_arith);
            lemma_fundamental_div_mod(off, bsize(oi));
            assert(off == bsize(oi) * (off / bsize(oi)));
            assert(off / bsize(oi) * bsize(oi) == bsize(oi) * (off / bsize(oi)))
                by (nonlinear_arith);
            assert(buddy_offset as int == (off / bsize(oi) + 1) * bsize(oi));
            assert(buddy_offset as int % bsize(oi) == 0);
            assert(valid_block(buddy_offset as int, oi));
        }
        word_write(&mut self.arena, buddy_offset, u64::MAX);
        self.heads.set(order, buddy_offset);
        proof {
            self.lists@ = self.lists@.update(oi, seq![buddy_offset as int]);
            self.live@ = self.live@.remove((off, oi + 1)).insert((off, oi));
        }
        proof {
            let os = *old(self);
            let ns = *self;
            let s = bsize(oi);
            assert(ns.live@ =~= os.live@.insert((off, oi)));
            // The write window lies inside the parent block, which is
            // disjoint from every free block, so all stored links survive.
            assert forall|o: int, i: int|
                0 <= o <= MAX_ORDER && 0 <= i < mid.lists@[o].len() implies #[trigger] word_at(
                ns.arena@,
                mid.lists@[o][i],
            ) == word_at(mid.arena@, mid.lists@[o][i]) by {
                assert(mid.list_wf(o));
                assert(valid_block(mid.lists@[o][i], o));
                lemma_bsize_pos(o);
                assert(blocks_disjoint(off, oi + 1, mid.lists@[o][i], o));
                lemma_word_frame(
                    mid.arena@,
                    ns.arena@,
                    buddy_offset as int,
                    mid.lists@[o][i],
                );
            }
            assert forall|o: int| 0 <= o <= MAX_ORDER implies ns.list_wf(o) by {
                assert(mid.list_wf(o));
                if o == oi {
                    assert(ns.lists@[o] == seq![buddy_offset as int]);
                    assert(word_at(ns.arena@, buddy_offset as int) == nil_word());
                } else {
                    assert(ns.lists@[o] == mid.lists@[o]);
                    assert forall|i: int| 0 <= i < ns.lists@[o].len() implies #[trigger] word_at(
                        ns.arena@,
                        ns.lists@[o][i],
                    ) == (if i + 1 < ns.lists@[o].len() {
                        ns.lists@[o][i + 1]
                    } else {
                        nil_word()
                    }) by {
                        assert(word_at(ns.arena@, mid.lists@[o][i]) == word_at(
                            mid.arena@,
                            mid.lists@[o][i],
                        ));
                    }
                }
            }
            assert forall|o1: int, i1: int, o2: int, i2: int|
                0 <= o1 <= MAX_ORDER && 0 <= i1 < ns.lists@[o1].len() && 0 <= o2 <= MAX_ORDER && 0
                    <= i2 < ns.lists@[o2].len() && (o1 != o2 || i1 != i2) implies blocks_disjoint(
                #[trigger] ns.lists@[o1][i1],
                o1,
                #[trigger] ns.lists@[o2][i2],
                o2,
            ) by {
                if o1 == oi {
                    assert(ns.lists@[o1][i1] == buddy_offset as int);
                    assert(mid.live@.contains((off, oi + 1)));
                    assert(blocks_disjoint(off, oi + 1, mid.lists@[o2][i2], o2));
                } else if o2 == oi {
                    assert(ns.lists@[o2][i2] == buddy_offset as int);
                    assert(blocks_disjoint(off, oi + 1, mid.lists@[o1][i1], o1));
                } else {
                    assert(ns.lists@[o1][i1] == mid.lists@[o1][i1]);
                    assert(ns.lists@[o2][i2] == mid.lists@[o2][i2]);
                }
            }
            assert(ns.live_ok()) by {
                assert(valid_block(off, oi));
                assert forall|b: (int, int)| #[trigger] ns.live@.contains(b) implies valid_block(
                    b.0,
                    b.1,
                ) by {
                    if b != (off, oi) {
                        assert(mid.live@.contains(b));
                    }
                }
                assert forall|b1: (int, int), b2: (int, int)|
                    #[trigger] ns.live@.contains(b1) && #[trigger] ns.live@.contains(b2) && b1
                        != b2 implies blocks_disjoint(b1.0, b1.1, b2.0, b2.1) by {
                    if b1 == (off, oi) {
                        assert(mid.live@.contains(b2));
                        assert(b2 != (off, oi + 1));
                        assert(blocks_disjoint(off, oi + 1, b2.0, b2.1)) by {
                            assert(mid.live@.contains((off, oi + 1)));
                        }
                    } else if b2 == (off, oi) {
                        assert(mid.live@.contains(b1));
                        assert(b1 != (off, oi + 1));
                        assert(blocks_disjoint(off, oi + 1, b1.0, b1.1)) by {
                            assert(mid.live@.contains((off, oi + 1)));
                        }
                    } else {
                        assert(mid.live@.contains(b1));
                        assert(mid.live@.contains(b2));
                    }
                }
                assert forall|b: (int, int), o: int, i: int|
                    #[trigger] ns.live@.contains(b) && 0 <= o <= MAX_ORDER && 0 <= i
                        < ns.lists@[o].len() implies blocks_disjoint(
                    b.0,
                    b.1,
                    #[trigger] ns.lists@[o][i],
                    o,
                ) by {
                    if o == oi {
                        assert(ns.lists@[o][i] == buddy_offset as int);
                        if b == (off, oi) {
                        } else {
                            assert(mid.live@.contains(b));
                            assert(b != (off, oi + 1));
                            assert(mid.live@.contains((off, oi + 1)));
                            assert(blocks_disjoint(b.0, b.1, off, oi + 1));
                        }
                    } else {
                        assert(ns.lists@[o][i] == mid.lists@[o][i]);
                        if b == (off, oi) {
                            assert(mid.live@.contains((off, oi + 1)));
                            assert(blocks_disjoint(off, oi + 1, mid.lists@[o][i], o));
                        } else {
                            assert(mid.live@.contains(b));
                        }
                    }
                }
            }
            assert(ns.coalesced()) by {
                assert forall|o: int, i: int, j: int|
                    0 <= o <= MAX_ORDER && 0 <= i < ns.lists@[o].len() && 0 <= j
                        < ns.lists@[o].len() implies #[trigger] ns.lists@[o][j] != buddy_of(
                    #[trigger] ns.lists@[o][i],
                    o,
                ) by {
                    lemma_bsize_pos(o);
                    if o == oi {
                        assert(i == 0 && j == 0);
                        assert(ns.lists@[o][i] == buddy_offset as int);
                    } else {
                        assert(ns.lists@[o][i] == mid.lists@[o][i]);
                        assert(ns.lists@[o][j] == mid.lists@[o][j]);
                    }
                }
            }
            assert forall|ad: int| 0 <= ad < MAX_TOTAL implies ns.covered(ad) by {
                assert(mid.covered(ad));
                if exists|o: int, i: int|
                    0 <= o <= MAX_ORDER && 0 <= i < mid.lists@[o].len() && (
                    #[trigger] mid.lists@[o][i]) <= ad && ad < mid.lists@[o][i] + bsize(o) {
                    let (o, i): (int, int) = choose|o: int, i: int|
                        0 <= o <= MAX_ORDER && 0 <= i < mid.lists@[o].len() && (
                        #[trigger] mid.lists@[o][i]) <= ad && ad < mid.lists@[o][i] + bsize(o);
                    assert(o != oi);
                    assert(ns.lists@[o][i] == mid.lists@[o][i]);
                    assert(ns.covered(ad));
                } else {
                    let b = choose|b: (int, int)|
                        #[trigger] mid.live@.contains(b) && b.0 <= ad && ad < b.0 + bsize(b.1);
                    if b == (off, oi + 1) {
                        if ad < off + s {
                            assert(ns.live@.contains((off, oi)));
                            assert(ns.covered(ad));
                        } else {
                            assert(ns.lists@[oi][0] == buddy_offset as int);
                            assert(ns.covered(ad));
                        }
                    } else {
                        assert(ns.live@.contains(b));
                        assert(ns.covered(ad));
                    }
                }
            }
            assert(ns.lists@ =~= spec_alloc(os.lists@, oi)->Some_0.1);
        }
        Blockinfo { offset: block.offset, length }
    }
}

/// The lower of a block and its buddy: the offset of the block one order
/// up that the two merge into.
pub open spec fn merged_of(off: int, o: int) -> int {
    if off < buddy_of(off, o) {
        off
    } else {
        buddy_of(off, o)
    }
}

/// What `close` does to the free lists: if the buddy is free at the same
/// order, splice it out and release the merged block one order up;
/// otherwise push the block onto its order's list.
pub open spec fn spec_close(lists: Seq<Seq<int>>, off: int, order: int) -> Seq<Seq<int>>
    decreases MAX_ORDER + 1 - order,
{
    if order < 0 || order > MAX_ORDER {
        lists
    } else if lists[order].contains(buddy_of(off, order)) {
        spec_close(
            lists.update(order, lists[order].remove_value(buddy_of(off, order))),
            merged_of(off, order),
            order + 1,
        )
    } else {
        lists.update(order, seq![off] + lists[order])
    }
}

/// The buddy relation is symmetric on valid blocks.
proof fn lemma_buddy_sym(x: int, o: int)
    requires
        valid_block(x, o),
    ensures
        buddy_of(buddy_of(x, o), o) == x,
{
    let s = bsize(o);
    lemma_bsize_pos(o);
    lemma_fundamental_div_mod(x, s);
    let q = x / s;
    assert(x == s * q);
    if q % 2 == 0 {
        assert(buddy_of(x, o) == x + s);
        assert(x + s == s * (q + 1)) by (nonlinear_arith)
            requires
                x == s * q,
        ;
        lemma_div_by_multiple(q + 1, s);
        assert((q + 1) * s == s * (q + 1)) by (nonlinear_arith);
        assert((x + s) / s == q + 1);
        lemma_fundamental_div_mod(q, 2);
        assert(q % 2 == 0 ==> (q + 1) % 2 == 1) by {
            lemma_mod_breakdown_helper(q);
        }
        assert(buddy_of(x + s, o) == x);
    } else {
        assert(buddy_of(x, o) == x - s);
        assert(x - s == s * (q - 1)) by (nonlinear_arith)
            requires
                x == s * q,
        ;
        assert(0 <= q) by {
            vstd::arithmetic::div_mod::lemma_div_pos_is_pos(x, s);
        }
        assert(1 <= q);
        lemma_div_by_multiple(q - 1, s);
        assert((q - 1) * s == s * (q - 1)) by (nonlinear_arith);
        assert((x - s) / s == q - 1);
        assert((q - 1) % 2 == 0) by {
            lemma_mod_breakdown_helper(q - 1);
            lemma_mod_breakdown_helper(q);
        }
        assert(buddy_of(x - s, o) == x);
    }
}

/// Parity of consecutive integers, spelled out for the solver.
proof fn lemma_mod_breakdown_helper(q: int)
    ensures
        (q + 1) % 2 == (if q % 2 == 0 {
            1int
        } else {
            0int
        }),
{
    lemma_fundamental_div_mod(q, 2);
    lemma_fundamental_div_mod(q + 1, 2);
    vstd::arithmetic::div_mod::lemma_mod_bound(q, 2);
    vstd::arithmetic::div_mod::lemma_mod_bound(q + 1, 2);
    if q % 2 == 0 {
        assert(q + 1 == 2 * (q / 2) + 1);
        vstd::arithmetic::div_mod::lemma_mod_multiples_vanish(q / 2, 1, 2);
    } else {
        assert(q + 1 == 2 * (q / 2) + 2);
        assert(q + 1 == 2 * (q / 2 + 1)) by (nonlinear_arith)
            requires
                q + 1 == 2 * (q / 2) + 2,
        ;
        lemma_mod_multiples_basic(q / 2 + 1, 2);
        assert((2 * (q / 2 + 1)) % 2 == ((q / 2 + 1) * 2) % 2) by (nonlinear_arith);
    }
}

/// Merging a valid block with its valid buddy gives a valid block one
/// order up whose range is exactly the union of the two.
proof fn lemma_buddy_merge(off: int, o: int)
    requires
        valid_block(off, o),
        valid_block(buddy_of(off, o), o),
    ensures
        o + 1 <= MAX_ORDER,
        bsize(o + 1) == 2 * bsize(o),
        valid_block(merged_of(off, o), o + 1),
        merged_of(off, o) <= off,
        off + bsize(o) <= merged_of(off, o) + bsize(o + 1),
        merged_of(off, o) <= buddy_of(off, o),
        buddy_of(off, o) + bsize(o) <= merged_of(off, o) + bsize(o + 1),
        merged_of(off, o) == off || merged_of(off, o) == buddy_of(off, o),
{
    let s = bsize(o);
    let b = buddy_of(off, o);
    let m = merged_of(off, o);
    lemma_bsize_pos(o);
    assert(bsize(o + 1) == 2 * s);
    lemma_fundamental_div_mod(off, s);
    let q = off / s;
    assert(off == s * q);
    assert(0 <= q) by {
        vstd::arithmetic::div_mod::lemma_div_pos_is_pos(off, s);
    }
    if q % 2 == 0 {
        assert(b == off + s);
        assert(m == off);
        assert(off == (q / 2) * (2 * s)) by (nonlinear_arith)
            requires
                off == s * q,
                q % 2 == 0,
                s > 0,
            {
            lemma_fundamental_div_mod(q, 2);
        }
        lemma_mod_multiples_basic(q / 2, 2 * s);
        assert(m % bsize(o + 1) == 0);
        assert(m + bsize(o + 1) == b + s);
    } else {
        assert(b == off - s);
        assert(m == b);
        assert(1 <= q);
        assert(b == ((q - 1) / 2) * (2 * s)) by (nonlinear_arith)
            requires
                off == s * q,
                b == off - s,
                q % 2 == 1,
                s > 0,
            {
            lemma_fundamental_div_mod(q, 2);
            lemma_fundamental_div_mod(q - 1, 2);
            lemma_mod_breakdown_helper(q - 1);
        }
        lemma_mod_multiples_basic((q - 1) / 2, 2 * s);
        assert(m % bsize(o + 1) == 0);
        assert(m + bsize(o + 1) == off + s);
    }
    if o == MAX_ORDER {
        lemma_bsize_total();
        assert(off + s <= MAX_TOTAL && b + s <= MAX_TOTAL);
        assert(off == 0 || b == 0);
        assert(false);
    }
}

/// After splicing the buddy out of its list and replacing the released
/// block and its buddy by the merged block one order up, every ghost-level
/// invariant that does not mention the arena bytes still holds.
proof fn lemma_splice_merge(os: Algorithm, ns: Algorithm, off: int, o: int, pos: int)
    requires
        os.wf(),
        0 <= o <= MAX_ORDER,
        os.live_blocks().contains((off, o)),
        0 <= pos < os.free_lists()[o].len(),
        os.free_lists()[o][pos] == buddy_of(off, o),
        ns.free_lists() == os.free_lists().update(o, os.free_lists()[o].remove(pos)),
        ns.live_blocks() == os.live_blocks().remove((off, o)).insert(
            (merged_of(off, o), o + 1),
        ),
    ensures
        o + 1 <= MAX_ORDER,
        bsize(o + 1) == 2 * bsize(o),
        valid_block(merged_of(off, o), o + 1),
        ns.live_blocks().contains((merged_of(off, o), o + 1)),
        ns.free_free_disjoint(),
        ns.live_ok(),
        ns.coalesced(),
        ns.covers(),
{
    let b = buddy_of(off, o);
    let m = merged_of(off, o);
    let l = os.lists@[o];
    let l2 = l.remove(pos);
    assert(os.list_wf(o));
    assert(valid_block(off, o));
    assert(valid_block(b, o));
    lemma_buddy_merge(off, o);
    lemma_bsize_pos(o);
    assert forall|o1: int, i1: int, o2: int, i2: int|
        0 <= o1 <= MAX_ORDER && 0 <= i1 < ns.lists@[o1].len() && 0 <= o2 <= MAX_ORDER && 0 <= i2
            < ns.lists@[o2].len() && (o1 != o2 || i1 != i2) implies blocks_disjoint(
        #[trigger] ns.lists@[o1][i1],
        o1,
        #[trigger] ns.lists@[o2][i2],
        o2,
    ) by {
        let j1: int = if o1 == o && i1 >= pos {
            i1 + 1
        } else {
            i1
        };
        let j2: int = if o2 == o && i2 >= pos {
            i2 + 1
        } else {
            i2
        };
        assert(ns.lists@[o1][i1] == os.lists@[o1][j1]);
        assert(ns.lists@[o2][i2] == os.lists@[o2][j2]);
    }
    assert(ns.live_ok()) by {
        assert forall|c: (int, int)| #[trigger] ns.live@.contains(c) implies valid_block(
            c.0,
            c.1,
        ) by {
            if c != (m, o + 1) {
                assert(os.live@.contains(c));
            }
        }
        assert forall|c1: (int, int), c2: (int, int)|
            #[trigger] ns.live@.contains(c1) && #[trigger] ns.live@.contains(c2) && c1 != c2
            implies blocks_disjoint(c1.0, c1.1, c2.0, c2.1) by {
            if c1 == (m, o + 1) {
                assert(os.live@.contains(c2) && c2 != (off, o));
                lemma_bsize_pos(c2.1);
                assert(blocks_disjoint(c2.0, c2.1, off, o));
                assert(blocks_disjoint(c2.0, c2.1, l[pos], o));
            } else if c2 == (m, o + 1) {
                assert(os.live@.contains(c1) && c1 != (off, o));
                lemma_bsize_pos(c1.1);
                assert(blocks_disjoint(c1.0, c1.1, off, o));
                assert(blocks_disjoint(c1.0, c1.1, l[pos], o));
            } else {
                assert(os.live@.contains(c1));
                assert(os.live@.contains(c2));
            }
        }
        assert forall|c: (int, int), o2: int, i2: int|
            #[trigger] ns.live@.contains(c) && 0 <= o2 <= MAX_ORDER && 0 <= i2
                < ns.lists@[o2].len() implies blocks_disjoint(
            c.0,
            c.1,
            #[trigger] ns.lists@[o2][i2],
            o2,
        ) by {
            let j2: int = if o2 == o && i2 >= pos {
                i2 + 1
            } else {
                i2
            };
            assert(ns.lists@[o2][i2] == os.lists@[o2][j2]);
            if c == (m, o + 1) {
                assert((o2, j2) != (o, pos));
                lemma_bsize_pos(o2);
                assert(blocks_disjoint(os.lists@[o2][j2], o2, l[pos], o));
                assert(blocks_disjoint(off, o, os.lists@[o2][j2], o2));
            } else {
                assert(os.live@.contains(c));
            }
        }
    }
    assert(ns.coalesced()) by {
        assert forall|o2: int, i: int, j: int|
            0 <= o2 <= MAX_ORDER && 0 <= i < ns.lists@[o2].len() && 0 <= j
                < ns.lists@[o2].len() implies #[trigger] ns.lists@[o2][j] != buddy_of(
            #[trigger] ns.lists@[o2][i],
            o2,
        ) by {
            let i2: int = if o2 == o && i >= pos {
                i + 1
            } else {
                i
            };
            let j2: int = if o2 == o && j >= pos {
                j + 1
            } else {
                j
            };
            assert(ns.lists@[o2][i] == os.lists@[o2][i2]);
            assert(ns.lists@[o2][j] == os.lists@[o2][j2]);
        }
    }
    assert forall|ad: int| 0 <= ad < MAX_TOTAL implies ns.covered(ad) by {
        assert(os.covered(ad));
        if exists|o2: int, i2: int|
            0 <= o2 <= MAX_ORDER && 0 <= i2 < os.lists@[o2].len() && (
            #[trigger] os.lists@[o2][i2]) <= ad && ad < os.lists@[o2][i2] + bsize(o2) {
            let (o2, i2): (int, int) = choose|o2: int, i2: int|
                0 <= o2 <= MAX_ORDER && 0 <= i2 < os.lists@[o2].len() && (
                #[trigger] os.lists@[o2][i2]) <= ad && ad < os.lists@[o2][i2] + bsize(o2);
            if o2 == o && i2 == pos {
                assert(ns.live@.contains((m, o + 1)));
                assert(ns.covered(ad));
            } else {
                let i3: int = if o2 == o && i2 > pos {
                    i2 - 1
                } else {
                    i2
                };
                assert(ns.lists@[o2][i3] == os.lists@[o2][i2]);
                assert(ns.covered(ad));
            }
        } else {
            let c = choose|c: (int, int)|
                #[trigger] os.live@.contains(c) && c.0 <= ad && ad < c.0 + bsize(c.1);
            if c == (off, o) {
                assert(ns.live@.contains((m, o + 1)));
                assert(ns.covered(ad));
            } else {
                assert(ns.live@.contains(c));
                assert(ns.covered(ad));
            }
        }
    }
}

impl Algorithm {
    /// Release a block previously returned by `allocate`, merging it with
    /// its buddy as far as adjacent free buddies allow. A block whose
    /// offset is `usize::MAX` is ignored. The caller must hand back the
    /// same length that was allocated: the ghost precondition demands that
    /// the block is live at the order its length denotes.
    #[verifier::rlimit(100)]
    #[verifier::spinoff_prover]
    pub fn close(&mut self, block: Blockinfo)
        requires
            old(self).wf(),
            block.offset != usize::MAX ==> exists|o: int|
                0 <= o <= MAX_ORDER && block.length == bsize(o) && #[trigger] old(
                    self,
                ).live_blocks().contains((block.offset as int, o)),
        ensures
            final(self).wf(),
            block.offset == usize::MAX ==> *final(self) == *old(self),
            block.offset != usize::MAX ==> final(self).free_lists() == spec_close(
                old(self).free_lists(),
                block.offset as int,
                order_of(block.length as int),
            ) && final(self).live_blocks() == old(self).live_blocks().remove(
                (block.offset as int, order_of(block.length as int)),
            ),
        decreases MAX_TOTAL - block.length,
    {
        if block.offset == usize::MAX {
            return;
        }
        let ghost o0 = choose|o: int|
            0 <= o <= MAX_ORDER && block.length == bsize(o) && old(self).live@.contains(
                (block.offset as int, o),
            );
        proof {
            lemma_order_of_bsize(o0);
            lemma_bsize_pos(o0);
            lemma_bsize_mono(o0, MAX_ORDER as int);
            lemma_bsize_total();
        }
        let mut order: usize = 0;
        let mut size: usize = MIN_BLOCK;
        while size < block.length
            invariant
                0 <= order <= o0 <= MAX_ORDER,
                size == bsize(order as int),
                block.length == bsize(o0),
            decreases block.length - size,
        {
            proof {
                lemma_bsize_pos(order as int);
                lemma_bsize_mono(order as int, o0);
                assert(order < o0);
                lemma_bsize_mono(order as int + 1, o0);
            }
            size = size * 2;
            order = order + 1;
        }
        proof {
            lemma_bsize_mono(order as int, o0);
            if order < o0 {
                assert(2 * bsize(order as int) <= bsize(o0));
                assert(false);
            }
            assert(order == o0);
        }
        let off = block.offset;
        let ghost offi = off as int;
        let ghost oi = order as int;
        let ghost l = self.lists@[oi];
        proof {
            assert(old(self).live@.contains((offi, oi)));
            assert(valid_block(offi, oi));
            assert(self.list_wf(oi));
            lemma_fundamental_div_mod(offi, bsize(oi));
        }
        let idx = off / size;
        let buddy_offset: usize = if idx % 2 == 0 {
            off + size
        } else {
            proof {
                assert(idx as int == offi / bsize(oi));
                assert(idx as int >= 1) by {
                    if offi / bsize(oi) == 0 {
                        assert(offi == 0);
                        lemma_mod_multiples_basic(0, 2);
                    }
                }
                assert(offi >= bsize(oi)) by (nonlinear_arith)
                    requires
                        offi == bsize(oi) * (offi / bsize(oi)) + offi % bsize(oi),
                        offi % bsize(oi) == 0,
                        offi / bsize(oi) >= 1,
                        bsize(oi) > 0,
                ;
            }
            off - size
        };
        proof {
            assert(buddy_offset as int == buddy_of(offi, oi));
        }
        let upper_offset = if off < buddy_offset {
            off
        } else {
            buddy_offset
        };
        proof {
            assert(upper_offset as int == merged_of(offi, oi));
        }
        let mut n = self.heads[order];
        let ghost mut k: int = 0;
        loop
            invariant
                *self == *old(self),
                self.wf(),
                0 <= oi <= MAX_ORDER,
                oi == o0,
                order == oi,
                size == bsize(oi),
                block.length == size,
                block.offset == off,
                offi == off as int,
                old(self).live@.contains((offi, oi)),
                valid_block(offi, oi),
                buddy_offset as int == buddy_of(offi, oi),
                upper_offset as int == merged_of(offi, oi),
                l == self.lists@[oi],
                0 <= k <= l.len(),
                (k < l.len() ==> n as int == l[k]) && (k == l.len() ==> n == usize::MAX),
                forall|j: int| 0 <= j < k ==> l[j] != buddy_offset as int,
                k > 0 && k < l.len() ==> l[k] != buddy_offset as int,
            decreases l.len() - k,
        {
            proof {
                assert(self.list_wf(oi));
            }
            if n == usize::MAX {
                // The buddy is not free at this order: push the block onto
                // the list, storing the old head in its first word.
                proof {
                    assert(k == l.len());
                    lemma_bsize_pos(oi);
                    if l.len() > 0 {
                        assert(valid_block(l[0], oi));
                    }
                }
                let head = self.heads[order];
                let head_word: u64 = if head == usize::MAX {
                    u64::MAX
                } else {
                    head as u64
                };
                word_write(&mut self.arena, off, head_word);
                self.heads.set(order, off);
                proof {
                    self.lists@ = self.lists@.update(oi, seq![offi] + l);
                    self.live@ = self.live@.remove((offi, oi));
                }
                proof {
                    let os = *old(self);
                    let ns = *self;
                    let l2 = seq![offi] + l;
                    assert(ns.lists@[oi] == l2);
                    // The write landed inside the released block, which is
                    // disjoint from every free block.
                    assert forall|o2: int, i2: int|
                        0 <= o2 <= MAX_ORDER && 0 <= i2 < os.lists@[o2].len() implies
                        #[trigger] word_at(ns.arena@, os.lists@[o2][i2]) == word_at(
                        os.arena@,
                        os.lists@[o2][i2],
                    ) by {
                        assert(os.list_wf(o2));
                        assert(valid_block(os.lists@[o2][i2], o2));
                        lemma_bsize_pos(o2);
                        assert(blocks_disjoint(offi, oi, os.lists@[o2][i2], o2));
                        lemma_word_frame(os.arena@, ns.arena@, offi, os.lists@[o2][i2]);
                    }
                    assert forall|o2: int| 0 <= o2 <= MAX_ORDER implies ns.list_wf(o2) by {
                        assert(os.list_wf(o2));
                        if o2 == oi {
                            assert(l2[0] == offi);
                            assert(word_at(ns.arena@, offi) == (if l.len() > 0 {
                                l[0]
                            } else {
                                nil_word()
                            }));
                            assert forall|i: int| 0 <= i < l2.len() implies valid_block(
                                #[trigger] l2[i],
                                o2,
                            ) by {
                                if i > 0 {
                                    assert(l2[i] == l[i - 1]);
                                }
                            }
                            assert forall|i: int| 0 <= i < l2.len() implies #[trigger] word_at(
                                ns.arena@,
                                l2[i],
                            ) == (if i + 1 < l2.len() {
                                l2[i + 1]
                            } else {
                                nil_word()
                            }) by {
                                if i > 0 {
                                    assert(l2[i] == l[i - 1]);
                                    assert(word_at(ns.arena@, l[i - 1]) == word_at(
                                        os.arena@,
                                        l[i - 1],
                                    ));
                                }
                            }
                        } else {
                            assert forall|i: int| 0 <= i < ns.lists@[o2].len() implies
                                #[trigger] word_at(ns.arena@, ns.lists@[o2][i]) == (if i + 1
                                < ns.lists@[o2].len() {
                                ns.lists@[o2][i + 1]
                            } else {
                                nil_word()
                            }) by {
                                assert(word_at(ns.arena@, os.lists@[o2][i]) == word_at(
                                    os.arena@,
                                    os.lists@[o2][i],
                                ));
                            }
                        }
                    }
                    assert forall|o1: int, i1: int, o2: int, i2: int|
                        0 <= o1 <= MAX_ORDER && 0 <= i1 < ns.lists@[o1].len() && 0 <= o2
                            <= MAX_ORDER && 0 <= i2 < ns.lists@[o2].len() && (o1 != o2 || i1 != i2)
                        implies blocks_disjoint(
                        #[trigger] ns.lists@[o1][i1],
                        o1,
                        #[trigger] ns.lists@[o2][i2],
                        o2,
                    ) by {
                        if o1 == oi && i1 == 0 {
                            let j2: int = if o2 == oi {
                                i2 - 1
                            } else {
                                i2
                            };
                            assert(ns.lists@[o2][i2] == os.lists@[o2][j2]);
                            assert(blocks_disjoint(offi, oi, os.lists@[o2][j2], o2));
                        } else if o2 == oi && i2 == 0 {
                            let j1: int = if o1 == oi {
                                i1 - 1
                            } else {
                                i1
                            };
                            assert(ns.lists@[o1][i1] == os.lists@[o1][j1]);
                            assert(blocks_disjoint(offi, oi, os.lists@[o1][j1], o1));
                        } else {
                            let j1: int = if o1 == oi {
                                i1 - 1
                            } else {
                                i1
                            };
                            let j2: int = if o2 == oi {
                                i2 - 1
                            } else {
                                i2
                            };
                            assert(ns.lists@[o1][i1] == os.lists@[o1][j1]);
                            assert(ns.lists@[o2][i2] == os.lists@[o2][j2]);
                        }
                    }
                    assert(ns.live_ok()) by {
                        assert forall|c: (int, int)| #[trigger] ns.live@.contains(c) implies
                            valid_block(c.0, c.1) by {
                            assert(os.live@.contains(c));
                        }
                        assert forall|c1: (int, int), c2: (int, int)|
                            #[trigger] ns.live@.contains(c1) && #[trigger] ns.live@.contains(c2)
                                && c1 != c2 implies blocks_disjoint(c1.0, c1.1, c2.0, c2.1) by {
                            assert(os.live@.contains(c1));
                            assert(os.live@.contains(c2));
                        }
                        assert forall|c: (int, int), o2: int, i2: int|
                            #[trigger] ns.live@.contains(c) && 0 <= o2 <= MAX_ORDER && 0 <= i2
                                < ns.lists@[o2].len() implies blocks_disjoint(
                            c.0,
                            c.1,
                            #[trigger] ns.lists@[o2][i2],
                            o2,
                        ) by {
                            assert(os.live@.contains(c));
                            assert(c != (offi, oi));
                            if o2 == oi && i2 == 0 {
                                assert(blocks_disjoint(c.0, c.1, offi, oi));
                            } else {
                                let j2: int = if o2 == oi {
                                    i2 - 1
                                } else {
                                    i2
                                };
                                assert(ns.lists@[o2][i2] == os.lists@[o2][j2]);
                            }
                        }
                    }
                    assert(ns.coalesced()) by {
                        assert forall|o2: int, i: int, j: int|
                            0 <= o2 <= MAX_ORDER && 0 <= i < ns.lists@[o2].len() && 0 <= j
                                < ns.lists@[o2].len() implies #[trigger] ns.lists@[o2][j]
                            != buddy_of(#[trigger] ns.lists@[o2][i], o2) by {
                            if o2 == oi {
                                if i == 0 && j == 0 {
                                    lemma_bsize_pos(oi);
                                } else if i == 0 {
                                    assert(ns.lists@[o2][j] == l[j - 1]);
                                    assert(l[j - 1] != buddy_of(offi, oi));
                                } else if j == 0 {
                                    assert(ns.lists@[o2][i] == l[i - 1]);
                                    assert(valid_block(l[i - 1], oi));
                                    lemma_buddy_sym(l[i - 1], oi);
                                    if offi == buddy_of(l[i - 1], oi) {
                                        assert(l[i - 1] == buddy_of(offi, oi));
                                    }
                                } else {
                                    assert(ns.lists@[o2][i] == os.lists@[o2][i - 1]);
                                    assert(ns.lists@[o2][j] == os.lists@[o2][j - 1]);
                                }
                            } else {
                                assert(ns.lists@[o2][i] == os.lists@[o2][i]);
                                assert(ns.lists@[o2][j] == os.lists@[o2][j]);
                            }
                        }
                    }
                    assert forall|ad: int| 0 <= ad < MAX_TOTAL implies ns.covered(ad) by {
                        assert(os.covered(ad));
                        if exists|o2: int, i2: int|
                            0 <= o2 <= MAX_ORDER && 0 <= i2 < os.lists@[o2].len() && (
                            #[trigger] os.lists@[o2][i2]) <= ad && ad < os.lists@[o2][i2] + bsize(
                            o2,
                        ) {
                            let (o2, i2): (int, int) = choose|o2: int, i2: int|
                                0 <= o2 <= MAX_ORDER && 0 <= i2 < os.lists@[o2].len() && (
                                #[trigger] os.lists@[o2][i2]) <= ad && ad < os.lists@[o2][i2]
                                    + bsize(o2);
                            let i3: int = if o2 == oi {
                                i2 + 1
                            } else {
                                i2
                            };
                            assert(ns.lists@[o2][i3] == os.lists@[o2][i2]);
                            assert(ns.covered(ad));
                        } else {
                            let c = choose|c: (int, int)|
                                #[trigger] os.live@.contains(c) && c.0 <= ad && ad < c.0 + bsize(
                                c.1,
                                );
                            if c == (offi, oi) {
                                assert(ns.lists@[oi][0] == offi);
                                assert(ns.covered(ad));
                            } else {
                                assert(ns.live@.contains(c));
                                assert(ns.covered(ad));
                            }
                        }
                    }
                    assert(!l.contains(buddy_offset as int)) by {
                        if l.contains(buddy_offset as int) {
                            let j = choose|j: int|
                                0 <= j < l.len() && l[j] == buddy_offset as int;
                            assert(l[j] != buddy_offset as int);
                        }
                    }
                    assert(ns.lists@ == spec_close(os.lists@, offi, oi));
                    lemma_order_of_bsize(oi);
                }
                return;
            }
            proof {
                assert(k < l.len());
                assert(valid_block(l[k], oi));
                lemma_bsize_pos(oi);
            }
            let m = word_read(&self.arena, n);
            proof {
                assert(word_at(self.arena@, l[k]) == (if k + 1 < l.len() {
                    l[k + 1]
                } else {
                    nil_word()
                }));
                if k + 1 < l.len() {
                    assert(valid_block(l[k + 1], oi));
                }
            }
            if n == buddy_offset {
                // The buddy heads the list: splice it out and release the
                // merged block one order up.
                proof {
                    assert(k == 0);
                }
                let new_head: usize = if m == u64::MAX {
                    usize::MAX
                } else {
                    m as usize
                };
                self.heads.set(order, new_head);
                proof {
                    self.lists@ = self.lists@.update(oi, l.remove(0));
                    self.live@ = self.live@.remove((offi, oi)).insert(
                        (upper_offset as int, oi + 1),
                    );
                }
                proof {
                    let os = *old(self);
                    let ns = *self;
                    let l2 = l.remove(0);
                    lemma_splice_merge(os, ns, offi, oi, 0);
                    assert forall|o2: int| 0 <= o2 <= MAX_ORDER implies ns.list_wf(o2) by {
                        assert(os.list_wf(o2));
                        if o2 == oi {
                            assert forall|i: int| 0 <= i < l2.len() implies #[trigger] word_at(
                                ns.arena@,
                                l2[i],
                            ) == (if i + 1 < l2.len() {
                                l2[i + 1]
                            } else {
                                nil_word()
                            }) by {
                                assert(l2[i] == l[i + 1]);
                            }
                        }
                    }
                }
                let upper = Blockinfo { offset: upper_offset, length: size * 2 };
                proof {
                    lemma_buddy_merge(offi, oi);
                    assert(upper.length == bsize(oi + 1));
                    assert(self.live@.contains((upper.offset as int, oi + 1)));
                }
                self.close(upper);
                proof {
                    let os = *old(self);
                    lemma_order_of_bsize(oi);
                    lemma_order_of_bsize(oi + 1);
                    lemma_buddy_merge(offi, oi);
                    assert(order_of(upper.length as int) == oi + 1);
                    l.index_of_first_ensures(buddy_offset as int);
                    assert(l.contains(buddy_offset as int));
                    assert(l.index_of_first(buddy_offset as int) == Some(0int)) by {
                        let fi = l.index_of_first(buddy_offset as int)->Some_0;
                        if fi != 0 {
                            assert(l[0] != buddy_offset as int);
                        }
                    }
                    assert(l.remove_value(buddy_offset as int) == l.remove(0));
                    assert(self.lists@ == spec_close(os.lists@, offi, oi));
                    assert((upper_offset as int, oi + 1) != (offi, oi));
                    assert(!os.live@.contains((upper_offset as int, oi + 1))) by {
                        if os.live@.contains((upper_offset as int, oi + 1)) {
                            lemma_bsize_pos(oi);
                            assert(blocks_disjoint(
                                upper_offset as int,
                                oi + 1,
                                os.lists@[oi][0],
                                oi,
                            ));
                            assert(os.lists@[oi][0] == buddy_of(offi, oi));
                            assert(false);
                        }
                    }
                    assert(self.live@ =~= os.live@.remove((offi, oi)));
                }
                return;
            }
            if m != u64::MAX && m as usize == buddy_offset {
                // The buddy follows the current node: splice it out by
                // linking past it, and release the merged block.
                proof {
                    assert(k + 1 < l.len());
                    assert(l[k + 1] == buddy_offset as int);
                }
                let bw = word_read(&self.arena, buddy_offset);
                word_write(&mut self.arena, n, bw);
                proof {
                    self.lists@ = self.lists@.update(oi, l.remove(k + 1));
                    self.live@ = self.live@.remove((offi, oi)).insert(
                        (upper_offset as int, oi + 1),
                    );
                }
                proof {
                    let os = *old(self);
                    let ns = *self;
                    let l2 = l.remove(k + 1);
                    lemma_splice_merge(os, ns, offi, oi, k + 1);
                    // The write landed inside the node before the buddy;
                    // every other free block's link is framed.
                    assert forall|o2: int, i2: int|
                        0 <= o2 <= MAX_ORDER && 0 <= i2 < os.lists@[o2].len() && !(o2 == oi && i2
                            == k) implies #[trigger] word_at(ns.arena@, os.lists@[o2][i2])
                        == word_at(os.arena@, os.lists@[o2][i2]) by {
                        assert(os.list_wf(o2));
                        assert(valid_block(os.lists@[o2][i2], o2));
                        lemma_bsize_pos(o2);
                        assert(blocks_disjoint(os.lists@[o2][i2], o2, l[k], oi));
                        lemma_word_frame(os.arena@, ns.arena@, l[k], os.lists@[o2][i2]);
                    }
                    assert(word_at(ns.arena@, l[k]) == (if k + 2 < l.len() {
                        l[k + 2]
                    } else {
                        nil_word()
                    }));
                    assert forall|o2: int| 0 <= o2 <= MAX_ORDER implies ns.list_wf(o2) by {
                        assert(os.list_wf(o2));
                        if o2 == oi {
                            assert(l2.len() == l.len() - 1);
                            if l2.len() > 0 {
                                assert(l2[0] == l[0]);
                            }
                            assert forall|i: int| 0 <= i < l2.len() implies valid_block(
                                #[trigger] l2[i],
                                o2,
                            ) by {
                                if i <= k {
                                    assert(l2[i] == l[i]);
                                } else {
                                    assert(l2[i] == l[i + 1]);
                                }
                            }
                            assert forall|i: int| 0 <= i < l2.len() implies #[trigger] word_at(
                                ns.arena@,
                                l2[i],
                            ) == (if i + 1 < l2.len() {
                                l2[i + 1]
                            } else {
                                nil_word()
                            }) by {
                                if i < k {
                                    assert(l2[i] == l[i]);
                                    assert(word_at(ns.arena@, l[i]) == word_at(os.arena@, l[i]));
                                } else if i == k {
                                    assert(l2[i] == l[k]);
                                } else {
                                    assert(l2[i] == l[i + 1]);
                                    assert(word_at(ns.arena@, l[i + 1]) == word_at(
                                        os.arena@,
                                        l[i + 1],
                                    ));
                                }
                            }
                        } else {
                            assert forall|i: int| 0 <= i < ns.lists@[o2].len() implies
                                #[trigger] word_at(ns.arena@, ns.lists@[o2][i]) == (if i + 1
                                < ns.lists@[o2].len() {
                                ns.lists@[o2][i + 1]
                            } else {
                                nil_word()
                            }) by {
                                assert(word_at(ns.arena@, os.lists@[o2][i]) == word_at(
                                    os.arena@,
                                    os.lists@[o2][i],
                                ));
                            }
                        }
                    }
                }
                let upper = Blockinfo { offset: upper_offset, length: size * 2 };
                proof {
                    lemma_buddy_merge(offi, oi);
                    assert(upper.length == bsize(oi + 1));
                    assert(self.live@.contains((upper.offset as int, oi + 1)));
                }
                self.close(upper);
                proof {
                    let os = *old(self);
                    lemma_order_of_bsize(oi);
                    lemma_order_of_bsize(oi + 1);
                    lemma_buddy_merge(offi, oi);
                    assert(order_of(upper.length as int) == oi + 1);
                    l.index_of_first_ensures(buddy_offset as int);
                    assert(l[k + 1] == buddy_offset as int);
                    assert(l.contains(buddy_offset as int));
                    assert(l.index_of_first(buddy_offset as int) == Some(k + 1)) by {
                        let fi = l.index_of_first(buddy_offset as int)->Some_0;
                        assert(0 <= fi < l.len() && l[fi] == buddy_offset as int);
                        if fi < k + 1 {
                            if fi < k {
                                assert(l[fi] != buddy_offset as int);
                            } else {
                                assert(l[k] != buddy_offset as int) by {
                                    if k == 0 {
                                        assert(l[0] == n as int);
                                    }
                                }
                            }
                        }
                        if fi > k + 1 {
                            assert(forall|j: int|
                                0 <= j < fi ==> l[j] != buddy_offset as int);
                        }
                    }
                    assert(l.remove_value(buddy_offset as int) == l.remove(k + 1));
                    assert(self.lists@ == spec_close(os.lists@, offi, oi));
                    assert((upper_offset as int, oi + 1) != (offi, oi));
                    assert(!os.live@.contains((upper_offset as int, oi + 1))) by {
                        if os.live@.contains((upper_offset as int, oi + 1)) {
                            lemma_bsize_pos(oi);
                            assert(blocks_disjoint(
                                upper_offset as int,
                                oi + 1,
                                os.lists@[oi][k + 1],
                                oi,
                            ));
                            assert(os.lists@[oi][k + 1] == buddy_of(offi, oi));
                            assert(false);
                        }
                    }
                    assert(self.live@ =~= os.live@.remove((offi, oi)));
                }
                return;
            }
            n = if m == u64::MAX {
                usize::MAX
            } else {
                m as usize
            };
            proof {
                k = k + 1;
            }
        }
    }
}

/// The number of blocks of one order that tile the whole arena.
pub open spec fn nblocks(o: int) -> int
    decreases MAX_ORDER - o,
{
    if o >= MAX_ORDER {
        1
    } else {
        2 * nblocks(o + 1)
    }
}

/// Blocks of one order tile the arena exactly.
pub proof fn lemma_total_blocks(o: int)
    requires
        0 <= o <= MAX_ORDER,
    ensures
        bsize(o) * nblocks(o) == MAX_TOTAL,
        nblocks(o) >= 1,
    decreases MAX_ORDER - o,
{
    if o == MAX_ORDER {
        lemma_bsize_total();
    } else {
        lemma_total_blocks(o + 1);
        assert(bsize(o + 1) == 2 * bsize(o));
        assert(bsize(o) * (2 * nblocks(o + 1)) == (2 * bsize(o)) * nblocks(o + 1))
            by (nonlinear_arith);
    }
}

/// Total free bytes tracked by the lists of orders `0..=o`.
pub open spec fn free_total(lists: Seq<Seq<int>>, o: int) -> int
    decreases o + 1,
{
    if o < 0 {
        0
    } else {
        free_total(lists, o - 1) + lists[o].len() * bsize(o)
    }
}

/// Total free capacity tracked by all the lists.
pub open spec fn avail_of(lists: Seq<Seq<int>>) -> int {
    free_total(lists, MAX_ORDER as int)
}

/// Replacing one list changes the running totals by the difference of that
/// one list's contribution.
proof fn lemma_free_total_update(lists: Seq<Seq<int>>, o: int, l2: Seq<int>, upto: int)
    requires
        0 <= o < lists.len(),
        upto < lists.len(),
    ensures
        free_total(lists.update(o, l2), upto) == free_total(lists, upto) + (if o <= upto {
            (l2.len() - lists[o].len()) * bsize(o)
        } else {
            0
        }),
    decreases upto + 1,
{
    if upto >= 0 {
        lemma_free_total_update(lists, o, l2, upto - 1);
        if o == upto {
            assert((l2.len() - lists[o].len()) * bsize(o) == l2.len() * bsize(o) - lists[o].len()
                * bsize(o)) by (nonlinear_arith);
        }
    }
}

/// Allocation removes exactly one block's worth of free capacity.
pub proof fn lemma_spec_alloc_avail(lists: Seq<Seq<int>>, order: int)
    requires
        lists.len() == MAX_ORDER + 1,
        0 <= order,
        spec_alloc(lists, order) is Some,
    ensures
        avail_of((spec_alloc(lists, order)->Some_0).1) == avail_of(lists) - bsize(order),
    decreases MAX_ORDER + 1 - order,
{
    lemma_bsize_pos(order);
    assert(order <= MAX_ORDER);
    if lists[order].len() > 0 {
        let l2 = lists[order].drop_first();
        lemma_free_total_update(lists, order, l2, MAX_ORDER as int);
        assert((l2.len() - lists[order].len()) * bsize(order) == -1 * bsize(order))
            by (nonlinear_arith)
            requires
                l2.len() == lists[order].len() - 1,
        ;
    } else {
        assert(spec_alloc(lists, order + 1) is Some);
        lemma_spec_alloc_avail(lists, order + 1);
        lemma_spec_alloc_frame(lists, order + 1);
        let ol = spec_alloc(lists, order + 1)->Some_0;
        assert(ol.1[order] == lists[order]);
        assert(ol.1[order].len() == 0);
        let l2 = seq![ol.0 + bsize(order)];
        lemma_free_total_update(ol.1, order, l2, MAX_ORDER as int);
        assert((l2.len() - ol.1[order].len()) * bsize(order) == bsize(order))
            by (nonlinear_arith)
            requires
                l2.len() == 1,
                ol.1[order].len() == 0,
        ;
        assert(bsize(order + 1) == 2 * bsize(order));
    }
}

/// Release returns exactly one block's worth of free capacity.
pub proof fn lemma_spec_close_avail(lists: Seq<Seq<int>>, off: int, order: int)
    requires
        lists.len() == MAX_ORDER + 1,
        valid_block(off, order),
        forall|o2: int, i: int|
            0 <= o2 <= MAX_ORDER && 0 <= i < lists[o2].len() ==> valid_block(
                #[trigger] lists[o2][i],
                o2,
            ),
    ensures
        avail_of(spec_close(lists, off, order)) == avail_of(lists) + bsize(order),
    decreases MAX_ORDER + 1 - order,
{
    lemma_bsize_pos(order);
    let b = buddy_of(off, order);
    if lists[order].contains(b) {
        let bi = choose|i: int| 0 <= i < lists[order].len() && lists[order][i] == b;
        assert(valid_block(lists[order][bi], order));
        lemma_buddy_merge(off, order);
        lists[order].index_of_first_ensures(b);
        let l2 = lists[order].remove_value(b);
        assert(l2.len() == lists[order].len() - 1);
        lemma_free_total_update(lists, order, l2, MAX_ORDER as int);
        assert((l2.len() - lists[order].len()) * bsize(order) == -1 * bsize(order))
            by (nonlinear_arith)
            requires
                l2.len() == lists[order].len() - 1,
        ;
        let mid = lists.update(order, l2);
        assert forall|o2: int, i: int|
            0 <= o2 <= MAX_ORDER && 0 <= i < mid[o2].len() implies valid_block(
            #[trigger] mid[o2][i],
            o2,
        ) by {
            if o2 == order {
                let fi = lists[order].index_of_first(b)->Some_0;
                let j: int = if i < fi {
                    i
                } else {
                    i + 1
                };
                assert(mid[o2][i] == lists[o2][j]);
            }
        }
        lemma_spec_close_avail(mid, merged_of(off, order), order + 1);
        assert(bsize(order + 1) == 2 * bsize(order));
    } else {
        let l2 = seq![off] + lists[order];
        lemma_free_total_update(lists, order, l2, MAX_ORDER as int);
        assert((l2.len() - lists[order].len()) * bsize(order) == bsize(order))
            by (nonlinear_arith)
            requires
                l2.len() == lists[order].len() + 1,
        ;
    }
}

/// A free list's blocks, being disjoint and aligned, never exceed the
/// arena: the list contributes at most the whole arena's bytes.
proof fn lemma_list_len_bound(s: Algorithm, o: int)
    requires
        s.wf(),
        0 <= o <= MAX_ORDER,
    ensures
        0 <= s.free_lists()[o].len() * bsize(o) <= MAX_TOTAL,
{
    let l = s.free_lists()[o];
    let sz = bsize(o);
    let nb = nblocks(o);
    lemma_bsize_pos(o);
    lemma_total_blocks(o);
    assert(s.list_wf(o));
    let idxs = Seq::new(l.len(), |i: int| l[i] / sz);
    assert forall|i: int, j: int| 0 <= i < idxs.len() && 0 <= j < idxs.len() && i != j implies
        idxs[i] != idxs[j] by {
        assert(valid_block(l[i], o));
        assert(valid_block(l[j], o));
        assert(blocks_disjoint(l[i], o, l[j], o));
        lemma_fundamental_div_mod(l[i], sz);
        lemma_fundamental_div_mod(l[j], sz);
        if l[i] / sz == l[j] / sz {
            assert(l[i] == l[j]);
            assert(false);
        }
    }
    assert(idxs.no_duplicates());
    idxs.unique_seq_to_set();
    assert forall|i: int| 0 <= i < idxs.len() implies 0 <= #[trigger] idxs[i] < nb by {
        assert(valid_block(l[i], o));
        lemma_fundamental_div_mod(l[i], sz);
        vstd::arithmetic::div_mod::lemma_div_pos_is_pos(l[i], sz);
        assert(sz * (l[i] / sz) + sz <= sz * nb);
        assert(l[i] / sz < nb) by (nonlinear_arith)
            requires
                sz * (l[i] / sz) + sz <= sz * nb,
                sz > 0,
        ;
    }
    assert(idxs.to_set().subset_of(set_int_range(0, nb))) by {
        assert forall|x: int| idxs.to_set().contains(x) implies set_int_range(0, nb).contains(
            x,
        ) by {
            let i = choose|i: int| 0 <= i < idxs.len() && idxs[i] == x;
        }
    }
    lemma_int_range(0, nb);
    lemma_len_subset(idxs.to_set(), set_int_range(0, nb));
    assert(l.len() <= nb);
    vstd::arithmetic::mul::lemma_mul_inequality(l.len() as int, nb, sz);
    assert(l.len() * sz <= nb * sz);
    assert(nb * sz == sz * nb) by (nonlinear_arith);
    assert(0 <= l.len() * sz) by (nonlinear_arith)
        requires
            sz > 0,
            l.len() >= 0,
    ;
}

/// Free capacity is bounded by the size of the arena times the number of
/// orders counted so far.
proof fn lemma_free_total_bound(s: Algorithm, o: int)
    requires
        s.wf(),
        -1 <= o <= MAX_ORDER,
    ensures
        0 <= free_total(s.free_lists(), o) <= (o + 1) * MAX_TOTAL,
    decreases o + 1,
{
    if o >= 0 {
        lemma_free_total_bound(s, o - 1);
        lemma_list_len_bound(s, o);
        assert((o + 1) * MAX_TOTAL == o * MAX_TOTAL + MAX_TOTAL) by (nonlinear_arith);
    }
}

impl Algorithm {
    /// The number of free blocks currently held at one order.
    pub fn free_count(&self, order: usize) -> (r: usize)
        requires
            self.wf(),
            order <= MAX_ORDER,
        ensures
            r == self.free_lists()[order as int].len(),
    {
        let ghost l = self.lists@[order as int];
        proof {
            assert(self.list_wf(order as int));
            lemma_list_len_bound(*self, order as int);
            lemma_bsize_pos(order as int);
            assert(l.len() <= MAX_TOTAL) by (nonlinear_arith)
                requires
                    l.len() * bsize(order as int) <= MAX_TOTAL,
                    bsize(order as int) >= 1,
                    l.len() >= 0,
            ;
        }
        let mut count: usize = 0;
        let mut n = self.heads[order];
        while n != usize::MAX
            invariant
                self.wf(),
                0 <= order <= MAX_ORDER,
                l == self.lists@[order as int],
                l.len() <= MAX_TOTAL,
                0 <= count <= l.len(),
                (count < l.len() ==> n as int == l[count as int]) && (count == l.len() ==> n
                    == usize::MAX),
            decreases l.len() - count,
        {
            proof {
                assert(self.list_wf(order as int));
                assert(valid_block(l[count as int], order as int));
                lemma_bsize_pos(order as int);
            }
            let m = word_read(&self.arena, n);
            proof {
                if count as int + 1 < l.len() {
                    assert(valid_block(l[count as int + 1], order as int));
                }
            }
            n = if m == u64::MAX {
                usize::MAX
            } else {
                m as usize
            };
            count = count + 1;
        }
        count
    }

    /// The total free capacity in bytes: the sum over all orders of the
    /// number of free blocks times the block size.
    pub fn avail(&self) -> (r: usize)
        requires
            self.wf(),
        ensures
            r as int == avail_of(self.free_lists()),
    {
        let mut s: usize = 0;
        let mut order: usize = 0;
        proof {
            lemma_free_total_bound(*self, -1);
        }
        while order <= MAX_ORDER
            invariant
                self.wf(),
                0 <= order <= MAX_ORDER + 1,
                s as int == free_total(self.free_lists(), order as int - 1),
                s as int <= (order as int) * MAX_TOTAL,
            decreases MAX_ORDER + 1 - order,
        {
            let count = self.free_count(order);
            let size = block_size(order);
            proof {
                lemma_list_len_bound(*self, order as int);
                lemma_free_total_bound(*self, order as int);
                lemma_free_total_bound(*self, order as int - 1);
                assert((order as int + 1) * MAX_TOTAL == order as int * MAX_TOTAL + MAX_TOTAL)
                    by (nonlinear_arith);
            }
            s = s + count * size;
            order = order + 1;
        }
        s
    }
}

/// Block sizes of lower orders divide those of higher orders.
proof fn lemma_bsize_divides(o1: int, o2: int)
    requires
        o1 <= o2,
    ensures
        bsize(o2) % bsize(o1) == 0,
    decreases o2 - o1,
{
    lemma_bsize_pos(o1);
    if o1 == o2 || o2 <= 0 {
        assert(bsize(o2) == bsize(o1));
        lemma_mod_multiples_basic(1, bsize(o1));
        assert(1 * bsize(o1) == bsize(o1)) by (nonlinear_arith);
    } else {
        lemma_bsize_divides(o1, o2 - 1);
        lemma_fundamental_div_mod(bsize(o2 - 1), bsize(o1));
        let k = bsize(o2 - 1) / bsize(o1);
        assert(bsize(o2 - 1) == bsize(o1) * k);
        assert(bsize(o2) == bsize(o1) * (2 * k)) by (nonlinear_arith)
            requires
                bsize(o2) == 2 * bsize(o2 - 1),
                bsize(o2 - 1) == bsize(o1) * k,
        ;
        lemma_mod_multiples_basic(2 * k, bsize(o1));
        assert(bsize(o1) * (2 * k) == (2 * k) * bsize(o1)) by (nonlinear_arith);
    }
}

/// A block below the top order has a valid buddy.
proof fn lemma_buddy_valid(x: int, o: int)
    requires
        valid_block(x, o),
        o < MAX_ORDER,
    ensures
        valid_block(buddy_of(x, o), o),
{
    let s = bsize(o);
    lemma_bsize_pos(o);
    lemma_fundamental_div_mod(x, s);
    let q = x / s;
    assert(x == s * q);
    assert(0 <= q) by {
        vstd::arithmetic::div_mod::lemma_div_pos_is_pos(x, s);
    }
    lemma_total_blocks(o);
    let nb = nblocks(o);
    assert(s * nb == MAX_TOTAL);
    assert(q < nb) by (nonlinear_arith)
        requires
            s * q + s <= s * nb,
            s > 0,
    ;
    if q % 2 == 0 {
        // the buddy is the next block; an even-indexed block is never last
        assert(buddy_of(x, o) == x + s);
        assert(q + 1 < nb || q + 1 == nb);
        if q + 1 == nb {
            assert(nb % 2 == 0) by {
                lemma_total_blocks(o);
                if o < MAX_ORDER {
                    assert(nblocks(o) == 2 * nblocks(o + 1));
                    lemma_mod_multiples_basic(nblocks(o + 1), 2);
                    assert(2 * nblocks(o + 1) == nblocks(o + 1) * 2) by (nonlinear_arith);
                }
            }
            lemma_mod_breakdown_helper(q);
            assert(false);
        }
        assert(x + s == s * (q + 1)) by (nonlinear_arith)
            requires
                x == s * q,
        ;
        lemma_mod_multiples_basic(q + 1, s);
        assert(s * (q + 1) == (q + 1) * s) by (nonlinear_arith);
        assert(x + s + s <= s * nb) by (nonlinear_arith)
            requires
                x + s == s * (q + 1),
                q + 1 + 1 <= nb,
                s > 0,
        ;
    } else {
        assert(buddy_of(x, o) == x - s);
        assert(1 <= q);
        assert(x - s == s * (q - 1)) by (nonlinear_arith)
            requires
                x == s * q,
        ;
        lemma_mod_multiples_basic(q - 1, s);
        assert(s * (q - 1) == (q - 1) * s) by (nonlinear_arith);
    }
}

/// Two equally aligned blocks that share an address coincide.
proof fn lemma_same_order_same(y: int, b: int, o: int)
    requires
        y % bsize(o) == 0,
        b % bsize(o) == 0,
        y <= b < y + bsize(o),
    ensures
        y == b,
{
    let s = bsize(o);
    lemma_bsize_pos(o);
    lemma_fundamental_div_mod(y, s);
    lemma_fundamental_div_mod(b, s);
    let qy = y / s;
    let qb = b / s;
    assert(qy == qb) by (nonlinear_arith)
        requires
            y == s * qy,
            b == s * qb,
            y <= b,
            b < y + s,
            s > 0,
    ;
}

/// An aligned larger block that touches a smaller aligned block contains
/// it whole.
proof fn lemma_aligned_nesting(y: int, oy: int, p: int, op: int, ad: int)
    requires
        op <= oy,
        y % bsize(oy) == 0,
        p % bsize(op) == 0,
        y <= ad < y + bsize(oy),
        p <= ad < p + bsize(op),
    ensures
        y <= p,
        p + bsize(op) <= y + bsize(oy),
{
    let sp = bsize(op);
    let sy = bsize(oy);
    lemma_bsize_pos(op);
    lemma_bsize_mono(op, oy);
    lemma_bsize_divides(op, oy);
    lemma_fundamental_div_mod(sy, sp);
    let t = sy / sp;
    assert(sy == sp * t);
    assert(t >= 1) by (nonlinear_arith)
        requires
            sy == sp * t,
            sy >= sp,
            sp > 0,
    ;
    lemma_fundamental_div_mod(y, sy);
    let ky = y / sy;
    assert(y == sy * ky);
    assert(y == sp * (t * ky)) by (nonlinear_arith)
        requires
            y == sy * ky,
            sy == sp * t,
    ;
    lemma_fundamental_div_mod(p, sp);
    let kp = p / sp;
    assert(p == sp * kp);
    if p < y {
        assert(kp < t * ky) by (nonlinear_arith)
            requires
                p == sp * kp,
                y == sp * (t * ky),
                p < y,
                sp > 0,
        ;
        assert(p + sp <= y) by (nonlinear_arith)
            requires
                p == sp * kp,
                y == sp * (t * ky),
                kp + 1 <= t * ky,
                sp > 0,
        ;
        assert(false);
    }
    assert(y + sy == sp * (t * ky + t)) by (nonlinear_arith)
        requires
            y == sp * (t * ky),
            sy == sp * t,
    ;
    if p + sp > y + sy {
        assert(kp + 1 > t * ky + t) by (nonlinear_arith)
            requires
                p == sp * kp,
                y + sy == sp * (t * ky + t),
                p + sp > y + sy,
                sp > 0,
        ;
        assert(p >= y + sy) by (nonlinear_arith)
            requires
                p == sp * kp,
                y + sy == sp * (t * ky + t),
                kp >= t * ky + t,
                sp > 0,
        ;
        assert(false);
    }
}

impl Algorithm {
    /// With no live blocks, no order below the top can hold a free block,
    /// provided all orders below it are already known empty: its buddy
    /// would have to be covered by an equal-or-larger free block, which
    /// either violates coalescence or overlaps the block itself.
    proof fn lemma_empty_at(self, o: int)
        requires
            self.wf(),
            self.live_blocks() == Set::<(int, int)>::empty(),
            0 <= o < MAX_ORDER,
            forall|o2: int| 0 <= o2 < o ==> (#[trigger] self.free_lists()[o2]).len() == 0,
        ensures
            self.free_lists()[o].len() == 0,
    {
        let l = self.lists@[o];
        if l.len() > 0 {
            assert(self.list_wf(o));
            let x = l[0];
            assert(valid_block(x, o));
            lemma_bsize_pos(o);
            lemma_buddy_valid(x, o);
            let b = buddy_of(x, o);
            lemma_buddy_merge(x, o);
            let p = merged_of(x, o);
            assert(self.covered(b));
            assert(!(exists|c: (int, int)|
                #[trigger] self.live@.contains(c) && c.0 <= b && b < c.0 + bsize(c.1))) by {
                assert(forall|c: (int, int)| !self.live@.contains(c));
            }
            let (o2, i2): (int, int) = choose|o2: int, i2: int|
                0 <= o2 <= MAX_ORDER && 0 <= i2 < self.lists@[o2].len() && (
                #[trigger] self.lists@[o2][i2]) <= b && b < self.lists@[o2][i2] + bsize(o2);
            let y = self.lists@[o2][i2];
            assert(self.list_wf(o2));
            assert(valid_block(y, o2));
            if o2 < o {
                assert(self.free_lists()[o2].len() == 0);
                assert(false);
            }
            assert(o2 >= o);
            if o2 == o {
                lemma_same_order_same(y, b, o);
                assert(self.lists@[o][i2] == buddy_of(self.lists@[o][0], o));
                assert(false);
            } else {
                lemma_aligned_nesting(y, o2, p, o + 1, b);
                assert(p <= x < p + bsize(o + 1));
                assert(y <= x < y + bsize(o2));
                assert(blocks_disjoint(self.lists@[o][0], o, self.lists@[o2][i2], o2));
                assert(false);
            }
        }
    }

    proof fn lemma_empty_upto(self, o: int)
        requires
            self.wf(),
            self.live_blocks() == Set::<(int, int)>::empty(),
            0 <= o <= MAX_ORDER,
        ensures
            forall|o2: int| 0 <= o2 < o ==> (#[trigger] self.free_lists()[o2]).len() == 0,
        decreases o,
    {
        if o > 0 {
            self.lemma_empty_upto(o - 1);
            self.lemma_empty_at(o - 1);
        }
    }

    /// Full coalescence: once every allocated block has been released, the
    /// allocator is back to its initial state: one free block of the top
    /// order at offset zero, and nothing else.
    pub proof fn lemma_full_coalescence(self)
        requires
            self.wf(),
            self.live_blocks() == Set::<(int, int)>::empty(),
        ensures
            forall|o: int| 0 <= o < MAX_ORDER ==> (#[trigger] self.free_lists()[o]).len() == 0,
            self.free_lists()[MAX_ORDER as int] == seq![0int],
    {
        self.lemma_empty_upto(MAX_ORDER as int);
        let top = self.lists@[MAX_ORDER as int];
        assert(self.list_wf(MAX_ORDER as int));
        lemma_bsize_total();
        assert(self.covered(0));
        assert(!(exists|c: (int, int)|
            #[trigger] self.live@.contains(c) && c.0 <= 0 && 0 < c.0 + bsize(c.1))) by {
            assert(forall|c: (int, int)| !self.live@.contains(c));
        }
        let (o2, i2): (int, int) = choose|o2: int, i2: int|
            0 <= o2 <= MAX_ORDER && 0 <= i2 < self.lists@[o2].len() && (
            #[trigger] self.lists@[o2][i2]) <= 0 && 0 < self.lists@[o2][i2] + bsize(o2);
        if o2 < MAX_ORDER {
            assert(self.free_lists()[o2].len() == 0);
            assert(false);
        }
        assert(o2 == MAX_ORDER);
        assert(valid_block(top[i2], MAX_ORDER as int));
        assert(top[i2] == 0);
        assert(top.len() >= 1);
        if top.len() >= 2 {
            let j: int = if i2 == 0 {
                1
            } else {
                0
            };
            assert(valid_block(top[j], MAX_ORDER as int));
            assert(top[j] == 0);
            assert(blocks_disjoint(top[i2], MAX_ORDER as int, top[j], MAX_ORDER as int));
            lemma_bsize_pos(MAX_ORDER as int);
            assert(false);
        }
        assert(top =~= seq![0int]);
    }
}

/// The block size of an order, as executable code.
fn block_size(order: usize) -> (r: usize)
    requires
        order <= MAX_ORDER,
    ensures
        r == bsize(order as int),
{
    let mut r: usize = MIN_BLOCK;
    let mut j: usize = 0;
    while j < order
        invariant
            0 <= j <= order <= MAX_ORDER,
            r == bsize(j as int),
        decreases order - j,
    {
        proof {
            lemma_bsize_mono(j as int + 1, MAX_ORDER as int);
            lemma_bsize_total();
        }
        r = r * 2;
        j = j + 1;
    }
    r
}

/// Read the machine word stored at a byte offset of the arena.
fn word_read(arena: &Vec<u8>, off: usize) -> (r: u64)
    requires
        off + 8 <= arena@.len(),
    ensures
        r as int == word_at(arena@, off as int),
{
    let n = arena.len();
    let s = slice_subrange(arena.as_slice(), off, off + 8);
    u64_from_le_bytes(s)
}

/// Write a machine word at a byte offset of the arena, little-endian.
fn word_write(arena: &mut Vec<u8>, off: usize, w: u64)
    requires
        off + 8 <= old(arena)@.len(),
    ensures
        final(arena)@.len() == old(arena)@.len(),
        word_at(final(arena)@, off as int) == w,
        forall|j: int|
            0 <= j < old(arena)@.len() && !(off <= j < off + 8) ==> final(arena)@[j] == old(
                arena,
            )@[j],
{
    let bytes = u64_to_le_bytes(w);
    let n = arena.len();
    let mut i: usize = 0;
    while i < 8
        invariant
            0 <= i <= 8,
            bytes@ == spec_u64_to_le_bytes(w),
            bytes@.len() == 8,
            arena@.len() == old(arena)@.len(),
            arena@.len() <= usize::MAX,
            off + 8 <= arena@.len(),
            forall|j: int|
                0 <= j < arena@.len() && !(off <= j < off + i) ==> arena@[j] == old(arena)@[j],
            forall|j: int| 0 <= j < i ==> #[trigger] arena@[off + j] == bytes@[j],
        decreases 8 - i,
    {
        arena.set(off + i, bytes[i]);
        i = i + 1;
    }
    proof {
        assert forall|k: int| 0 <= k < 8 implies arena@.subrange(off as int, off as int + 8)[k]
            == spec_u64_to_le_bytes(w)[k] by {
            assert(arena@[off + k] == bytes@[k]);
        }
        assert(arena@.subrange(off as int, off as int + 8) =~= spec_u64_to_le_bytes(w));
        lemma_auto_spec_u64_to_from_le_bytes();
    }
}

/// A word window inside one block is untouched by a write whose window
/// lies in a disjoint block, so the stored link survives.
proof fn lemma_word_frame(a1: Seq<u8>, a2: Seq<u8>, woff: int, off: int)
    requires
        a1.len() == a2.len(),
        0 <= woff,
        woff + 8 <= a1.len(),
        0 <= off,
        off + 8 <= a1.len(),
        off + 8 <= woff || woff + 8 <= off,
        forall|j: int| 0 <= j < a1.len() && !(woff <= j < woff + 8) ==> a2[j] == a1[j],
    ensures
        word_at(a2, off) == word_at(a1, off),
{
    assert(a2.subrange(off, off + 8) =~= a1.subrange(off, off + 8));
}

// ---------------------------------------------------------------------------
// Laws and the size-translating adapter
// ---------------------------------------------------------------------------

/// Conservation, allocation side: a successful allocation removes exactly
/// the allocated block's bytes from the free capacity, so any sequence of
/// matched allocations and releases leaves the capacity unchanged.
pub proof fn lemma_allocate_conserves(s: Algorithm, order: int)
    requires
        s.wf(),
        0 <= order,
        spec_alloc(s.free_lists(), order) is Some,
    ensures
        avail_of((spec_alloc(s.free_lists(), order)->Some_0).1) == avail_of(s.free_lists())
            - bsize(order),
{
    lemma_spec_alloc_avail(s.free_lists(), order);
}

/// Conservation, release side: releasing a valid block returns exactly its
/// bytes to the free capacity, however far the coalescing cascades.
pub proof fn lemma_close_conserves(s: Algorithm, off: int, order: int)
    requires
        s.wf(),
        valid_block(off, order),
    ensures
        avail_of(spec_close(s.free_lists(), off, order)) == avail_of(s.free_lists()) + bsize(
            order,
        ),
{
    assert forall|o2: int, i: int|
        0 <= o2 <= MAX_ORDER && 0 <= i < s.free_lists()[o2].len() implies valid_block(
        #[trigger] s.free_lists()[o2][i],
        o2,
    ) by {
        assert(s.list_wf(o2));
    }
    lemma_spec_close_avail(s.free_lists(), off, order);
}

/// Non-overlap: no two simultaneously live blocks share an address.
pub proof fn lemma_live_non_overlap(s: Algorithm, b1: (int, int), b2: (int, int))
    requires
        s.wf(),
        s.live_blocks().contains(b1),
        s.live_blocks().contains(b2),
        b1 != b2,
    ensures
        blocks_disjoint(b1.0, b1.1, b2.0, b2.1),
{
}

/// The smallest order from `o` upward whose block size holds `n` bytes,
/// or one past the top order when even the whole arena is too small.
pub open spec fn order_from(n: int, o: int) -> int
    decreases MAX_ORDER + 1 - o,
{
    if o > MAX_ORDER {
        o
    } else if bsize(o) >= n {
        o
    } else {
        order_from(n, o + 1)
    }
}

/// The order a byte size translates to: the base-two logarithm of the
/// size rounded up to a power of two, at least the minimum block size.
pub open spec fn order_for(n: int) -> int {
    order_from(n, 0)
}

proof fn lemma_order_from(n: int, o: int)
    requires
        0 <= o <= MAX_ORDER,
    ensures
        o <= order_from(n, o) <= MAX_ORDER + 1,
        order_from(n, o) <= MAX_ORDER ==> n <= bsize(order_from(n, o)),
        n <= MAX_TOTAL ==> order_from(n, o) <= MAX_ORDER,
    decreases MAX_ORDER + 1 - o,
{
    lemma_bsize_total();
    lemma_bsize_mono(o, MAX_ORDER as int);
    if o < MAX_ORDER && bsize(o) < n {
        lemma_order_from(n, o + 1);
    } else if o == MAX_ORDER && bsize(o) < n {
        assert(order_from(n, o) == order_from(n, o + 1));
        assert(order_from(n, o + 1) == o + 1);
    }
}

/// The size-translating adapter: the process-wide dynamic-memory provider.
/// It turns byte sizes into orders for the buddy algorithm and hands back
/// the algorithm's sentinel on failure instead of aborting.
pub struct Allocator {
    algo: Algorithm,
}

impl Allocator {
    /// The underlying buddy state.
    pub closed spec fn inner(self) -> Algorithm {
        self.algo
    }

    /// A fresh adapter over a fresh arena.
    pub fn new() -> (r: Self)
        ensures
            r.inner().wf(),
            r.inner().live_blocks() == Set::<(int, int)>::empty(),
            forall|o: int| 0 <= o < MAX_ORDER ==> (#[trigger] r.inner().free_lists()[o])
                == Seq::<int>::empty(),
            r.inner().free_lists()[MAX_ORDER as int] == seq![0int],
    {
        Self { algo: Algorithm::new() }
    }

    /// Translate a byte size to its order: one past the top order when
    /// even the whole arena cannot hold the size.
    fn order_for_size(size: usize) -> (r: usize)
        ensures
            r == order_for(size as int),
            r <= MAX_ORDER + 1,
    {
        let mut o: usize = 0;
        let mut s: usize = MIN_BLOCK;
        while o <= MAX_ORDER && s < size
            invariant
                0 <= o <= MAX_ORDER + 1,
                o <= MAX_ORDER ==> s == bsize(o as int),
                order_for(size as int) == order_from(size as int, o as int),
                o > MAX_ORDER ==> order_for(size as int) == o,
            decreases MAX_ORDER + 1 - o,
        {
            proof {
                lemma_bsize_pos(o as int);
                if o < MAX_ORDER {
                    lemma_bsize_mono(o as int + 1, MAX_ORDER as int);
                }
                lemma_bsize_total();
            }
            if o == MAX_ORDER {
                o = o + 1;
            } else {
                s = s * 2;
                o = o + 1;
            }
        }
        o
    }

    /// Allocate at least `size` bytes: round the size up to a block order
    /// and take a block of that order. On failure the returned offset is
    /// `usize::MAX` and the state is unchanged.
    pub fn allocate(&mut self, size: usize) -> (r: Blockinfo)
        requires
            old(self).inner().wf(),
        ensures
            final(self).inner().wf(),
            match spec_alloc(old(self).inner().free_lists(), order_for(size as int)) {
                Option::None => r.offset == usize::MAX && r.length == 0 && *final(self) == *old(
                    self,
                ),
                Option::Some(ol) => {
                    &&& r.offset == ol.0
                    &&& r.length == bsize(order_for(size as int))
                    &&& size as int <= MAX_TOTAL ==> size as int <= r.length
                    &&& final(self).inner().free_lists() == ol.1
                    &&& final(self).inner().live_blocks() == old(
                        self,
                    ).inner().live_blocks().insert((ol.0, order_for(size as int)))
                },
            },
    {
        let order = Self::order_for_size(size);
        proof {
            lemma_order_from(size as int, 0);
        }
        self.algo.allocate(order)
    }

    /// Release a block previously returned by `allocate`, given the same
    /// byte size that was requested then.
    pub fn release(&mut self, offset: usize, size: usize)
        requires
            old(self).inner().wf(),
            offset != usize::MAX ==> old(self).inner().live_blocks().contains(
                (offset as int, order_for(size as int)),
            ),
        ensures
            final(self).inner().wf(),
            offset == usize::MAX ==> *final(self) == *old(self),
            offset != usize::MAX ==> final(self).inner().free_lists() == spec_close(
                old(self).inner().free_lists(),
                offset as int,
                order_for(size as int),
            ) && final(self).inner().live_blocks() == old(self).inner().live_blocks().remove(
                (offset as int, order_for(size as int)),
            ),
    {
        if offset == usize::MAX {
            return;
        }
        let order = Self::order_for_size(size);
        let length = block_size(order);
        proof {
            lemma_order_of_bsize(order as int);
        }
        self.algo.close(Blockinfo { offset, length });
    }

    /// The total free capacity in bytes.
    pub fn avail(&self) -> (r: usize)
        requires
            self.inner().wf(),
        ensures
            r as int == avail_of(self.inner().free_lists()),
    {
        self.algo.avail()
    }
}

} // verus!
