use vstd::prelude::*;
use crate::block::{
    Block, is_pow2, round_down, pairwise_disjoint, all_within, disjoint_from_all, align_down,
    lemma_round_down, lemma_pow2_positive,
};

verus! {

/// The size of the arena that the process-wide allocator manages: 128 KiB.
pub const ARENA_SIZE: usize = 128 * 1024;

/// The largest alignment that the allocator serves. The arena's base is
/// aligned to it, so an offset that is a multiple of an alignment up to this
/// one gives an address with that alignment.
pub const MAX_SUPPORTED_ALIGN: usize = 4096;

/// `i` is the first index of `s` whose block holds at least `size` bytes.
pub open spec fn is_first_fit(s: Seq<Block>, size: usize, i: int) -> bool {
    &&& 0 <= i < s.len()
    &&& s[i].size >= size
    &&& forall|j: int| 0 <= j < i ==> (#[trigger] s[j]).size < size
}

/// The index that a first-fit search of `s` for `size` bytes stops at:
/// the first block large enough, or `s.len()` where there is none.
pub open spec fn first_fit(s: Seq<Block>, size: usize) -> int {
    if exists|i: int| is_first_fit(s, size, i) {
        choose|i: int| is_first_fit(s, size, i)
    } else {
        s.len() as int
    }
}

/// A first fit, where there is one, is the only one.
pub proof fn lemma_first_fit_is(s: Seq<Block>, size: usize, i: int)
    requires
        is_first_fit(s, size, i),
    ensures
        first_fit(s, size) == i,
{
    let k = choose|k: int| is_first_fit(s, size, k);
    assert(is_first_fit(s, size, k));
    if k < i {
        assert(s[k].size < size);
    } else if k > i {
        assert(s[i].size < size);
    }
}

/// Where no block of `s` holds `size` bytes, the search runs off the end.
pub proof fn lemma_first_fit_none(s: Seq<Block>, size: usize)
    requires
        forall|j: int| 0 <= j < s.len() ==> (#[trigger] s[j]).size < size,
    ensures
        first_fit(s, size) == s.len(),
{
    assert forall|k: int| !is_first_fit(s, size, k) by {
        if 0 <= k < s.len() {
            assert(s[k].size < size);
        }
    }
}

/// The state of an allocator as its contracts see it.
///
/// Every block in `free_list` or in `live` was carved from the consumed top
/// of the arena, `[remaining, capacity)`; none of them overlaps another.
pub ghost struct AllocatorModel {
    /// Size of the arena in bytes.
    pub capacity: usize,
    /// Largest alignment served.
    pub max_align: usize,
    /// Bytes below this offset have never been handed out.
    pub remaining: usize,
    /// Released blocks, most recently released first.
    pub free_list: Seq<Block>,
    /// Blocks handed out and not yet released, with the size they were
    /// requested with.
    pub live: Seq<Block>,
}

impl AllocatorModel {
    /// Blocks free or live lie in the consumed top of the arena and overlap
    /// pairwise in no byte.
    pub open spec fn wf(self) -> bool {
        &&& self.remaining <= self.capacity
        &&& all_within(self.free_list, self.remaining as nat, self.capacity as nat)
        &&& all_within(self.live, self.remaining as nat, self.capacity as nat)
        &&& pairwise_disjoint(self.free_list)
        &&& pairwise_disjoint(self.live)
        &&& forall|i: int, j: int|
            0 <= i < self.free_list.len() && 0 <= j < self.live.len() ==> (#[trigger] self.free_list[i]).disjoint(
                #[trigger] self.live[j],
            )
    }

    /// A new allocator: nothing handed out, nothing released.
    pub open spec fn fresh(capacity: usize, max_align: usize) -> AllocatorModel {
        AllocatorModel { capacity, max_align, remaining: capacity, free_list: seq![], live: seq![] }
    }

    /// The offset that `acquire(size, align)` returns, or `None`.
    pub open spec fn acquire_result(self, size: usize, align: usize) -> Option<usize> {
        let i = first_fit(self.free_list, size);
        if align > self.max_align {
            None
        } else if i < self.free_list.len() {
            Some(self.free_list[i].addr)
        } else if size <= self.remaining {
            Some(round_down((self.remaining - size) as nat, align as nat) as usize)
        } else {
            None
        }
    }

    /// The state after `acquire(size, align)`.
    pub open spec fn after_acquire(self, size: usize, align: usize) -> AllocatorModel {
        let i = first_fit(self.free_list, size);
        if align > self.max_align {
            self
        } else if i < self.free_list.len() {
            AllocatorModel {
                free_list: self.free_list.remove(i),
                live: self.live.push(Block { addr: self.free_list[i].addr, size }),
                ..self
            }
        } else if size <= self.remaining {
            let a = round_down((self.remaining - size) as nat, align as nat) as usize;
            AllocatorModel { remaining: a, live: self.live.push(Block { addr: a, size }), ..self }
        } else {
            self
        }
    }

    /// The state after `release(ptr, size)`.
    pub open spec fn after_release(self, ptr: Option<usize>, size: usize) -> AllocatorModel {
        match ptr {
            None => self,
            Some(p) => {
                let b = Block { addr: p, size };
                AllocatorModel {
                    free_list: seq![b] + self.free_list,
                    live: self.live.remove(self.live.index_of(b)),
                    ..self
                }
            },
        }
    }
}

/// A request is served from the free list, or by the bump path, or not at
/// all; a block handed out lies in the arena and overlaps no live block, and
/// the state stays well formed.
pub proof fn lemma_acquire(m: AllocatorModel, size: usize, align: usize)
    requires
        m.wf(),
        align > 0,
    ensures
        m.after_acquire(size, align).wf(),
        m.acquire_result(size, align) matches Some(a) ==> {
            let b = Block { addr: a, size };
            &&& b.within(0, m.capacity as nat)
            &&& disjoint_from_all(b, m.live)
            &&& m.after_acquire(size, align).live == m.live.push(b)
        },
        m.acquire_result(size, align) is None ==> m.after_acquire(size, align) == m,
{
    let i = first_fit(m.free_list, size);
    let n = m.after_acquire(size, align);
    if align > m.max_align {
    } else if i < m.free_list.len() {
        assert(exists|k: int| is_first_fit(m.free_list, size, k));
        assert(is_first_fit(m.free_list, size, i));
        let f = m.free_list[i];
        let b = Block { addr: f.addr, size };
        assert(f.within(m.remaining as nat, m.capacity as nat));
        assert(b.within(0, m.capacity as nat));
        assert forall|j: int| 0 <= j < n.free_list.len() implies #[trigger] n.free_list[j]
            == m.free_list[if j < i { j } else { j + 1 }] by {}
        assert forall|j: int| 0 <= j < m.live.len() implies b.disjoint(#[trigger] m.live[j]) by {
            assert(m.free_list[i].disjoint(m.live[j]));
        }
        assert forall|j: int, k: int|
            0 <= j < n.free_list.len() && 0 <= k < n.live.len() implies (#[trigger] n.free_list[j]).disjoint(
                #[trigger] n.live[k],
            ) by {
            let jj = if j < i { j } else { j + 1 };
            if k < m.live.len() {
                assert(m.free_list[jj].disjoint(m.live[k]));
            } else {
                assert(m.free_list[jj].disjoint(m.free_list[i]));
            }
        }
        assert forall|j: int, k: int|
            0 <= j < n.free_list.len() && 0 <= k < n.free_list.len() && j != k implies (#[trigger] n.free_list[j]).disjoint(
                #[trigger] n.free_list[k],
            ) by {
            let jj = if j < i { j } else { j + 1 };
            let kk = if k < i { k } else { k + 1 };
            assert(m.free_list[jj].disjoint(m.free_list[kk]));
        }
        assert forall|j: int, k: int|
            0 <= j < n.live.len() && 0 <= k < n.live.len() && j != k implies (#[trigger] n.live[j]).disjoint(
                #[trigger] n.live[k],
            ) by {
            if j < m.live.len() && k < m.live.len() {
                assert(m.live[j].disjoint(m.live[k]));
            } else if j < m.live.len() {
                assert(b.disjoint(m.live[j]));
            } else {
                assert(b.disjoint(m.live[k]));
            }
        }
        assert(all_within(n.live, n.remaining as nat, n.capacity as nat)) by {
            assert forall|k: int| 0 <= k < n.live.len() implies #[trigger] n.live[k].within(
                n.remaining as nat,
                n.capacity as nat,
            ) by {
                if k < m.live.len() {
                    assert(m.live[k].within(m.remaining as nat, m.capacity as nat));
                } else {
                    assert(f.within(m.remaining as nat, m.capacity as nat));
                }
            }
        }
        assert(all_within(n.free_list, n.remaining as nat, n.capacity as nat)) by {
            assert forall|k: int| 0 <= k < n.free_list.len() implies #[trigger] n.free_list[k].within(
                n.remaining as nat,
                n.capacity as nat,
            ) by {
                let kk = if k < i { k } else { k + 1 };
                assert(m.free_list[kk].within(m.remaining as nat, m.capacity as nat));
            }
        }
    } else if size <= m.remaining {
        lemma_round_down((m.remaining - size) as nat, align as nat);
        let a = round_down((m.remaining - size) as nat, align as nat) as usize;
        let b = Block { addr: a, size };
        assert(a as nat == round_down((m.remaining - size) as nat, align as nat));
        assert(b.within(0, m.capacity as nat));
        assert forall|j: int| 0 <= j < m.live.len() implies b.disjoint(#[trigger] m.live[j]) by {
            assert(m.live[j].within(m.remaining as nat, m.capacity as nat));
        }
        assert forall|j: int, k: int|
            0 <= j < n.free_list.len() && 0 <= k < n.live.len() implies (#[trigger] n.free_list[j]).disjoint(
                #[trigger] n.live[k],
            ) by {
            if k < m.live.len() {
                assert(m.free_list[j].disjoint(m.live[k]));
            } else {
                assert(m.free_list[j].within(m.remaining as nat, m.capacity as nat));
            }
        }
        assert forall|j: int, k: int|
            0 <= j < n.live.len() && 0 <= k < n.live.len() && j != k implies (#[trigger] n.live[j]).disjoint(
                #[trigger] n.live[k],
            ) by {
            if j < m.live.len() && k < m.live.len() {
                assert(m.live[j].disjoint(m.live[k]));
            } else if j < m.live.len() {
                assert(b.disjoint(m.live[j]));
            } else {
                assert(b.disjoint(m.live[k]));
            }
        }
        assert forall|k: int| 0 <= k < n.live.len() implies #[trigger] n.live[k].within(
            n.remaining as nat,
            n.capacity as nat,
        ) by {
            if k < m.live.len() {
                assert(m.live[k].within(m.remaining as nat, m.capacity as nat));
            }
        }
        assert forall|k: int| 0 <= k < n.free_list.len() implies #[trigger] n.free_list[k].within(
            n.remaining as nat,
            n.capacity as nat,
        ) by {
            assert(m.free_list[k].within(m.remaining as nat, m.capacity as nat));
        }
    }
}

/// Releasing a live block puts it at the head of the free list and keeps the
/// state well formed; releasing nothing changes nothing.
pub proof fn lemma_release(m: AllocatorModel, ptr: Option<usize>, size: usize)
    requires
        m.wf(),
        ptr matches Some(p) ==> m.live.contains(Block { addr: p, size }),
    ensures
        m.after_release(ptr, size).wf(),
{
    if let Some(p) = ptr {
        let b = Block { addr: p, size };
        let n = m.after_release(ptr, size);
        let x = m.live.index_of(b);
        assert(0 <= x < m.live.len() && m.live[x] == b);
        assert forall|j: int| 0 <= j < n.live.len() implies #[trigger] n.live[j] == m.live[
            if j < x { j } else { j + 1 }
        ] by {}
        assert forall|j: int| 0 <= j < n.free_list.len() implies #[trigger] n.free_list[j] == (
            if j == 0 { b } else { m.free_list[j - 1] }) by {}
        assert forall|j: int, k: int|
            0 <= j < n.free_list.len() && 0 <= k < n.live.len() implies (#[trigger] n.free_list[j]).disjoint(
                #[trigger] n.live[k],
            ) by {
            let kk = if k < x { k } else { k + 1 };
            if j == 0 {
                assert(m.live[x].disjoint(m.live[kk]));
            } else {
                assert(m.free_list[j - 1].disjoint(m.live[kk]));
            }
        }
        assert forall|j: int, k: int|
            0 <= j < n.free_list.len() && 0 <= k < n.free_list.len() && j != k implies (#[trigger] n.free_list[j]).disjoint(
                #[trigger] n.free_list[k],
            ) by {
            if j == 0 {
                assert(m.free_list[k - 1].disjoint(m.live[x]));
            } else if k == 0 {
                assert(m.free_list[j - 1].disjoint(m.live[x]));
            } else {
                assert(m.free_list[j - 1].disjoint(m.free_list[k - 1]));
            }
        }
        assert forall|j: int, k: int|
            0 <= j < n.live.len() && 0 <= k < n.live.len() && j != k implies (#[trigger] n.live[j]).disjoint(
                #[trigger] n.live[k],
            ) by {
            let jj = if j < x { j } else { j + 1 };
            let kk = if k < x { k } else { k + 1 };
            assert(m.live[jj].disjoint(m.live[kk]));
        }
        assert forall|k: int| 0 <= k < n.live.len() implies #[trigger] n.live[k].within(
            n.remaining as nat,
            n.capacity as nat,
        ) by {
            let kk = if k < x { k } else { k + 1 };
            assert(m.live[kk].within(m.remaining as nat, m.capacity as nat));
        }
        assert forall|k: int| 0 <= k < n.free_list.len() implies #[trigger] n.free_list[k].within(
            n.remaining as nat,
            n.capacity as nat,
        ) by {
            if k == 0 {
                assert(m.live[x].within(m.remaining as nat, m.capacity as nat));
            } else {
                assert(m.free_list[k - 1].within(m.remaining as nat, m.capacity as nat));
            }
        }
    }
}

/// A fixed-capacity arena allocator.
///
/// Offsets handed out are relative to the arena's base. Fresh space is
/// carved from the top of the arena downward by lowering `remaining`;
/// released blocks go on a free list that later requests search first-fit.
///
/// The free list is kept as a vector of records beside the arena, not as
/// headers written into the released blocks, so a released block of any
/// size, even an empty one, can be recorded.
///
/// Synchronisation: both operations take `&mut self`, so the bump counter
/// and the free list are changed under exclusive access only. A caller that
/// shares one allocator across threads has to wrap it in a lock of its own;
/// the allocator itself takes none. The bump path therefore needs no retry
/// loop: the counter cannot change between reading and writing it.
pub struct Allocator {
    capacity: usize,
    max_align: usize,
    remaining: usize,
    free_list: Vec<Block>,
    live: Ghost<Seq<Block>>,
}

impl View for Allocator {
    type V = AllocatorModel;

    closed spec fn view(&self) -> AllocatorModel {
        AllocatorModel {
            capacity: self.capacity,
            max_align: self.max_align,
            remaining: self.remaining,
            free_list: self.free_list@,
            live: self.live@,
        }
    }
}

/// Searches `list` from its head for the first block of at least `size`
/// bytes; returns its index, or `list.len()` where there is none.
pub fn find_first_fit(list: &Vec<Block>, size: usize) -> (r: usize)
    ensures
        r as int == first_fit(list@, size),
{
    let mut i: usize = 0;
    while i < list.len()
        invariant
            0 <= i <= list.len(),
            forall|j: int| 0 <= j < i ==> (#[trigger] list@[j]).size < size,
        decreases list.len() - i,
    {
        if list[i].size >= size {
            proof {
                lemma_first_fit_is(list@, size, i as int);
            }
            return i;
        }
        i += 1;
    }
    proof {
        lemma_first_fit_none(list@, size);
    }
    i
}

impl Allocator {
    /// The allocator's state is well formed.
    pub open spec fn wf(&self) -> bool {
        self@.wf()
    }

    /// An allocator over an arena of `capacity` bytes that serves
    /// alignments up to `max_align`.
    pub fn new(capacity: usize, max_align: usize) -> (r: Allocator)
        ensures
            r.wf(),
            r@ == AllocatorModel::fresh(capacity, max_align),
    {
        Allocator { capacity, max_align, remaining: capacity, free_list: Vec::new(), live: Ghost(Seq::empty()) }
    }

    /// Hands out a block of `size` bytes aligned to `align`, as an offset
    /// from the arena's base, or `None`.
    ///
    /// An alignment above the maximum fails at once. Otherwise the first
    /// released block of at least `size` bytes is taken off the free list
    /// and handed out whole, at its own address. Failing that, the block is
    /// carved below the untouched part of the arena: `remaining - size`,
    /// rounded down to a multiple of `align`, becomes both the new
    /// `remaining` and the offset handed out. Where `size` exceeds
    /// `remaining` the request fails. A failure changes nothing.
    pub fn acquire(&mut self, size: usize, align: usize) -> (r: Option<usize>)
        requires
            old(self).wf(),
            is_pow2(align as nat),
        ensures
            final(self).wf(),
            r == old(self)@.acquire_result(size, align),
            final(self)@ == old(self)@.after_acquire(size, align),
            final(self)@.remaining <= old(self)@.remaining,
            r matches Some(a) ==> {
                let b = Block { addr: a, size };
                &&& b.within(0, old(self)@.capacity as nat)
                &&& disjoint_from_all(b, old(self)@.live)
                &&& final(self)@.live == old(self)@.live.push(b)
                &&& final(self)@.live.contains(b)
            },
            r is None ==> final(self)@ == old(self)@,
    {
        proof {
            lemma_pow2_positive(align as nat);
            lemma_acquire(self@, size, align);
        }
        if align > self.max_align {
            return None;
        }
        let i = find_first_fit(&self.free_list, size);
        if i < self.free_list.len() {
            let b = self.free_list.remove(i);
            self.live = Ghost(self.live@.push(Block { addr: b.addr, size }));
            assert(self.live@[self.live@.len() - 1] == Block { addr: b.addr, size });
            return Some(b.addr);
        }
        if size > self.remaining {
            return None;
        }
        let a = align_down(self.remaining - size, align);
        self.remaining = a;
        self.live = Ghost(self.live@.push(Block { addr: a, size }));
        assert(self.live@[self.live@.len() - 1] == Block { addr: a, size });
        Some(a)
    }

    /// Releases the block at `ptr`, which was handed out for `size` bytes:
    /// it goes to the head of the free list. With no `ptr` nothing happens.
    pub fn release(&mut self, ptr: Option<usize>, size: usize)
        requires
            old(self).wf(),
            ptr matches Some(p) ==> old(self)@.live.contains(Block { addr: p, size }),
        ensures
            final(self).wf(),
            final(self)@ == old(self)@.after_release(ptr, size),
            ptr is None ==> final(self)@ == old(self)@,
            ptr matches Some(p) ==> final(self)@.free_list == seq![Block { addr: p, size }] + old(
                self,
            )@.free_list,
            final(self)@.remaining == old(self)@.remaining,
    {
        proof {
            lemma_release(self@, ptr, size);
        }
        if let Some(p) = ptr {
            let b = Block { addr: p, size };
            self.free_list.insert(0, b);
            self.live = Ghost(self.live@.remove(self.live@.index_of(b)));
            assert(self.free_list@ =~= seq![b] + old(self).free_list@);
        }
    }

    /// Bytes below which the arena has never been handed out.
    pub fn remaining(&self) -> (r: usize)
        ensures
            r == self@.remaining,
    {
        self.remaining
    }

    /// Size of the arena in bytes.
    pub fn capacity(&self) -> (r: usize)
        ensures
            r == self@.capacity,
    {
        self.capacity
    }

    /// Largest alignment served.
    pub fn max_align(&self) -> (r: usize)
        ensures
            r == self@.max_align,
    {
        self.max_align
    }

    /// The released blocks, most recently released first.
    pub fn free_blocks(&self) -> (r: Vec<Block>)
        ensures
            r@ == self@.free_list,
    {
        let mut r: Vec<Block> = Vec::new();
        let mut i: usize = 0;
        while i < self.free_list.len()
            invariant
                0 <= i <= self.free_list.len(),
                r@ == self.free_list@.subrange(0, i as int),
            decreases self.free_list.len() - i,
        {
            r.push(self.free_list[i]);
            i += 1;
            assert(r@ =~= self.free_list@.subrange(0, i as int));
        }
        assert(r@ =~= self.free_list@);
        r
    }
}

} // verus!
