//! Allocation within a pool, from front to back.
use vstd::prelude::*;

verus! {

/// What a `SubAllocator` holds: a pool, and how much of it is given out.
pub struct SubAllocView {
    pub base: nat,
    pub total: nat,
    pub allocated: nat,
}

impl SubAllocView {
    /// Whether so many bytes are left, and the place where they start has a number.
    pub open spec fn has_room(self, size: nat) -> bool {
        self.allocated + size <= self.total && self.next() <= u64::MAX
    }

    /// Where the next piece starts.
    pub open spec fn next(self) -> nat {
        self.base + self.allocated
    }

    /// The pool after a piece was given out.
    pub open spec fn after(self, size: nat) -> Self {
        SubAllocView { allocated: self.allocated + size, ..self }
    }

    /// The pool after a piece was asked for: it is given out where there is room.
    pub open spec fn after_request(self, size: u64) -> Self {
        if self.has_room(size as nat) {
            self.after(size as nat)
        } else {
            self
        }
    }

    /// The pool after pieces were asked for, one after the other.
    pub open spec fn after_requests(self, sizes: Seq<u64>) -> Self
        decreases sizes.len(),
    {
        if sizes.len() == 0 {
            self
        } else {
            self.after_requests(sizes.drop_last()).after_request(sizes.last())
        }
    }

    /// The sum of the pieces that are given out of those asked for.
    pub open spec fn given_out(self, sizes: Seq<u64>) -> nat
        decreases sizes.len(),
    {
        if sizes.len() == 0 {
            0
        } else {
            self.given_out(sizes.drop_last()) + if self.after_requests(
                sizes.drop_last(),
            ).has_room(sizes.last() as nat) {
                sizes.last() as nat
            } else {
                0
            }
        }
    }

    /// Whatever is asked for, what is given out is the sum of the pieces that were granted,
    /// what is left is the rest of the pool, and the pool stays where it is.
    pub proof fn lemma_accounts(self, sizes: Seq<u64>)
        requires
            self.allocated <= self.total,
        ensures
            self.after_requests(sizes).base == self.base,
            self.after_requests(sizes).total == self.total,
            self.after_requests(sizes).allocated == self.allocated + self.given_out(sizes),
            self.after_requests(sizes).allocated <= self.total,
        decreases sizes.len(),
    {
        if sizes.len() > 0 {
            self.lemma_accounts(sizes.drop_last());
        }
    }

    /// A piece is given out exactly where that many bytes are left, and it starts behind
    /// what was given out before. The next piece starts behind it.
    pub proof fn lemma_given_where_left(self, size: u64)
        requires
            self.base + self.total <= u64::MAX,
            self.allocated <= self.total,
        ensures
            self.has_room(size as nat) <==> size <= self.total - self.allocated,
            self.next() == self.base + self.allocated,
            self.has_room(size as nat) ==> self.after_request(size).next() == self.next() + size,
            !self.has_room(size as nat) ==> self.after_request(size) == self,
            self.after(size as nat).base == self.base,
            self.after(size as nat).total == self.total,
            self.after(size as nat).allocated == self.allocated + size,
    {
    }

    /// Pieces lie within the pool, and a later piece lies behind an earlier one, whatever
    /// was given out in between.
    pub proof fn lemma_disjoint(self, size: nat, later: Self, other: nat)
        requires
            self.has_room(size),
            later.base == self.base,
            later.total == self.total,
            later.allocated >= self.after(size).allocated,
            later.has_room(other),
        ensures
            self.base <= self.next(),
            self.next() + size <= self.base + self.total,
            self.next() + size <= later.next(),
            later.next() + other <= self.base + self.total,
    {
    }
}

/// Gives out a pool piece by piece. Pieces are not taken back.
pub struct SubAllocator {
    base_offset: u64,
    total_len: u64,
    allocated: u64,
}

impl View for SubAllocator {
    type V = SubAllocView;

    closed spec fn view(&self) -> SubAllocView {
        SubAllocView {
            base: self.base_offset as nat,
            total: self.total_len as nat,
            allocated: self.allocated as nat,
        }
    }
}

impl SubAllocator {
    pub closed spec fn wf(&self) -> bool {
        self.allocated <= self.total_len
    }

    /// No more is given out than there is, and the bounds of the pool are numbers.
    pub proof fn lemma_wf(&self)
        requires
            self.wf(),
        ensures
            self@.allocated <= self@.total <= u64::MAX,
            self@.base <= u64::MAX,
    {
    }

    /// A pool of `total_len` bytes from `base_offset` on.
    pub fn new(base_offset: u64, total_len: u64) -> (r: Self)
        ensures
            r.wf(),
            r@ == (SubAllocView {
                base: base_offset as nat,
                total: total_len as nat,
                allocated: 0,
            }),
    {
        SubAllocator { base_offset, total_len, allocated: 0 }
    }

    /// Gives out `size` bytes. Returns where they start, or `None` where there are not so
    /// many left or they would start beyond the largest offset.
    pub fn allocate(&mut self, size: u64) -> (r: Option<u64>)
        requires
            old(self).wf(),
        ensures
            final(self).wf(),
            match r {
                Some(offset) => old(self)@.has_room(size as nat) && offset == old(self)@.next()
                    && final(self)@ == old(self)@.after(size as nat),
                None => !old(self)@.has_room(size as nat) && final(self)@ == old(self)@,
            },
    {
        if size > self.total_len - self.allocated {
            return None;
        }
        if self.allocated > u64::MAX - self.base_offset {
            return None;
        }
        let start: u64 = self.base_offset + self.allocated;
        self.allocated = self.allocated + size;
        Some(start)
    }

    /// Takes nothing back.
    pub fn free(&mut self, _offset: u64, _size: u64)
        ensures
            *final(self) == *old(self),
    {
    }

    /// How many bytes are given out.
    pub fn allocated_bytes(&self) -> (r: u64)
        ensures
            r == self@.allocated,
    {
        self.allocated
    }

    /// How many bytes are left.
    pub fn free_bytes(&self) -> (r: u64)
        requires
            self.wf(),
        ensures
            r == self@.total - self@.allocated,
            r + self@.allocated == self@.total,
    {
        self.total_len.saturating_sub(self.allocated)
    }

    pub fn base_offset(&self) -> (r: u64)
        ensures
            r == self@.base,
    {
        self.base_offset
    }

    pub fn total_len(&self) -> (r: u64)
        ensures
            r == self@.total,
    {
        self.total_len
    }
}

} // verus!
