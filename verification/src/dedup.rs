//! Sliding window of received sequence numbers.
use vstd::prelude::*;

verus! {

/// Standing of a sequence number.
#[derive(Debug, Clone, Copy, PartialEq, Eq, Structural)]
pub enum DedupResult {
    /// Received before: below the window, or marked in it.
    AlreadySeen,
    /// The next expected number.
    InOrder,
    /// Within the window, ahead of the next expected number.
    OutOfOrder,
    /// Beyond the window.
    BeyondWindow,
}

/// What a window knows: every number below `next` has been received, and of the `window`
/// numbers from there on those in `ahead`.
#[verifier::ext_equal]
pub struct DedupView {
    pub next: int,
    pub window: int,
    pub ahead: Set<int>,
}

impl DedupView {
    /// Whether a number has been received.
    pub open spec fn received(self, seq: int) -> bool {
        seq < self.next || self.ahead.contains(seq)
    }

    /// Whether a number can be marked.
    pub open spec fn in_window(self, seq: int) -> bool {
        self.next <= seq < self.next + self.window
    }

    /// The standing of a number.
    pub open spec fn standing(self, seq: int) -> DedupResult {
        if seq < self.next {
            DedupResult::AlreadySeen
        } else if seq == self.next {
            DedupResult::InOrder
        } else if !self.in_window(seq) {
            DedupResult::BeyondWindow
        } else if self.ahead.contains(seq) {
            DedupResult::AlreadySeen
        } else {
            DedupResult::OutOfOrder
        }
    }

    /// Whether the window can move on: some number behind the next one is missing.
    pub open spec fn can_advance(self) -> bool {
        exists|q: int| self.next < q <= u64::MAX && !#[trigger] self.ahead.contains(q)
    }

    /// Whether `after` is what marking `seq` makes of this window: the number counts as
    /// received, and the window starts at the first number that does not.
    pub open spec fn marked(self, seq: int, after: Self) -> bool {
        if !self.in_window(seq) {
            after == self
        } else {
            &&& after.window == self.window
            &&& after.next >= self.next
            &&& forall|q: int|
                self.next <= q < after.next ==> q == seq || #[trigger] self.ahead.contains(q)
            &&& after.next != seq && !self.ahead.contains(after.next)
            &&& forall|q: int| #[trigger]
                after.ahead.contains(q) <==> q > after.next && (q == seq || self.ahead.contains(q))
        }
    }

    /// Whether the numbers ahead lie in the window and the next number is not among them.
    pub open spec fn wf(self) -> bool {
        &&& self.window >= 0
        &&& forall|q: int| #[trigger]
            self.ahead.contains(q) ==> self.next < q && self.in_window(q)
    }

    /// Marking adds the number to those received and changes nothing else about them.
    pub proof fn lemma_marked_received(self, seq: int, after: Self, q: int)
        requires
            self.wf(),
            self.marked(seq, after),
        ensures
            after.wf(),
            after.next >= self.next,
            after.received(q) == (self.received(q) || (q == seq && self.in_window(seq))),
    {
        if self.in_window(seq) && self.next <= q < after.next && q != seq {
            assert(self.ahead.contains(q));
        }
        if self.in_window(seq) && after.next > seq && after.next >= self.next + self.window + 1 {
            let top = self.next + self.window;
            assert(self.next <= top < after.next);
            assert(top == seq || self.ahead.contains(top));
        }
        assert forall|x: int| #[trigger] after.ahead.contains(x) implies after.next < x
            && after.in_window(x) by {
            if self.in_window(seq) {
                assert(x == seq || self.ahead.contains(x));
            } else {
                assert(self.ahead.contains(x));
            }
        }
    }

    /// A number that has been received is a duplicate from then on, whatever is marked
    /// later: it is delivered at most once.
    pub proof fn lemma_at_most_once(self, seq: int, later: int, after: Self)
        requires
            self.wf(),
            self.received(seq),
            self.marked(later, after),
        ensures
            self.standing(seq) == DedupResult::AlreadySeen,
            after.received(seq),
            after.standing(seq) == DedupResult::AlreadySeen,
    {
        self.lemma_marked_received(later, after, seq);
    }

    /// A number is in order where it is the next one, and seen before where it was received.
    /// Of the others those inside the window are out of order and the rest beyond it.
    pub proof fn lemma_standing(self, seq: int)
        requires
            self.wf(),
            self.window > 0,
        ensures
            self.standing(seq) == DedupResult::InOrder <==> seq == self.next,
            self.standing(seq) == DedupResult::AlreadySeen <==> seq < self.next
                || self.ahead.contains(seq),
            self.standing(seq) == DedupResult::OutOfOrder <==> self.next < seq < self.next
                + self.window && !self.ahead.contains(seq),
            self.standing(seq) == DedupResult::BeyondWindow <==> seq >= self.next + self.window,
    {
    }

    /// Marking has one outcome.
    pub proof fn lemma_marked_unique(self, seq: int, a: Self, b: Self)
        requires
            self.marked(seq, a),
            self.marked(seq, b),
        ensures
            a == b,
    {
        if self.in_window(seq) {
            if a.next < b.next {
                assert(a.next == seq || self.ahead.contains(a.next));
            }
            if b.next < a.next {
                assert(b.next == seq || self.ahead.contains(b.next));
            }
            assert forall|q: int| a.ahead.contains(q) <==> b.ahead.contains(q) by {}
            assert(a.ahead =~= b.ahead);
        }
    }
}

/// Whether bit `j` of a word is set.
spec fn word_bit(w: u64, j: u64) -> bool {
    (w >> j) & 1 == 1
}

/// Whether bit `i` of a bitset is set.
spec fn bit(words: Seq<u64>, i: int) -> bool {
    word_bit(words[i / 64], (i % 64) as u64)
}

proof fn lemma_set_bit(w: u64, b: u64, j: u64)
    by (bit_vector)
    requires
        b < 64,
        j < 64,
    ensures
        (((w | (1u64 << b)) >> j) & 1 == 1) == ((w >> j) & 1 == 1 || j == b),
{
}

proof fn lemma_shift_bit(w: u64, n: u64, j: u64)
    by (bit_vector)
    requires
        j < 64,
    ensures
        ((((w >> 1) | ((n & 1) << 63)) >> j) & 1 == 1) == (if j < 63 {
            (w >> ((j + 1) as u64)) & 1 == 1
        } else {
            (n >> 0) & 1 == 1
        }),
        (((w >> 1) >> j) & 1 == 1) == (j < 63 && (w >> ((j + 1) as u64)) & 1 == 1),
{
}

proof fn lemma_zero_bits()
    ensures
        forall|j: u64| j < 64 ==> !#[trigger] word_bit(0, j),
{
    assert(forall|j: u64| j < 64 ==> !(#[trigger] (0u64 >> j) & 1 == 1)) by (bit_vector);
}

/// Received sequence numbers: a 1024-bit bitset over the numbers from the next expected
/// one on.
pub struct DedupWindow {
    next_expected: u64,
    seen: [u64; 16],
    window_size: usize,
}

impl DedupWindow {
    /// Bits lie within the window, and the first is clear.
    pub closed spec fn wf(&self) -> bool {
        &&& self.window_size <= 1024
        &&& forall|i: int|
            self.window_size <= i < 1024 ==> !#[trigger] bit(self.seen@, i)
        &&& !bit(self.seen@, 0)
    }

    pub closed spec fn spec_next(&self) -> u64 {
        self.next_expected
    }

    pub closed spec fn spec_window(&self) -> usize {
        self.window_size
    }

    pub closed spec fn spec_ahead(&self) -> Set<int> {
        Set::new(
            |q: int|
                self.next_expected <= q < self.next_expected + self.window_size && bit(
                    self.seen@,
                    q - self.next_expected,
                ),
        )
    }

    /// A window is a proper one.
    pub proof fn lemma_wf(&self)
        requires
            self.wf(),
        ensures
            self@.wf(),
    {
    }

    /// Creates a window of 1024 numbers from `initial_seq` on.
    pub fn new(initial_seq: u64) -> (r: Self)
        ensures
            r.wf(),
            r@ == (DedupView { next: initial_seq as int, window: 1024, ahead: Set::empty() }),
    {
        DedupWindow::with_window_size(initial_seq, 1024)
    }

    /// Creates a window of at most 1024 numbers.
    pub fn with_window_size(initial_seq: u64, window_size: usize) -> (r: Self)
        requires
            window_size <= 1024,
        ensures
            r.wf(),
            r@ == (DedupView {
                next: initial_seq as int,
                window: window_size as int,
                ahead: Set::empty(),
            }),
    {
        let r = DedupWindow { next_expected: initial_seq, seen: [0;16], window_size };
        proof {
            lemma_zero_bits();
            assert(r@.ahead =~= Set::empty());
        }
        r
    }

    /// The standing of a number.
    pub fn check(&self, seq: u64) -> (r: DedupResult)
        requires
            self.wf(),
        ensures
            r == self@.standing(seq as int),
    {
        if seq < self.next_expected {
            return DedupResult::AlreadySeen;
        }
        if seq == self.next_expected {
            return DedupResult::InOrder;
        }
        let offset: u64 = seq - self.next_expected;
        if offset >= self.window_size as u64 {
            return DedupResult::BeyondWindow;
        }
        if self.is_bit_set(offset as usize) {
            DedupResult::AlreadySeen
        } else {
            DedupResult::OutOfOrder
        }
    }

    /// Marks a number as received and moves the window past the numbers received without
    /// a gap. Returns the next expected number.
    pub fn mark_and_advance(&mut self, seq: u64) -> (r: u64)
        requires
            old(self).wf(),
            seq == old(self)@.next && old(self)@.window > 0 ==> old(self)@.can_advance(),
        ensures
            final(self).wf(),
            old(self)@.marked(seq as int, final(self)@),
            r == final(self)@.next,
    {
        if seq < self.next_expected {
            return self.next_expected;
        }
        let offset: u64 = seq - self.next_expected;
        if offset >= self.window_size as u64 {
            return self.next_expected;
        }
        let ghost first = *self;
        self.set_bit(offset as usize);
        let ghost start = self.seen@;
        let ghost mut k: int = 0;
        while self.is_bit_set(0)
            invariant
                0 <= k <= 1024,
                first.wf(),
                first.window_size == self.window_size,
                offset == seq - first.next_expected,
                offset < first.window_size,
                seq == first@.next && first@.window > 0 ==> first@.can_advance(),
                forall|i: int|
                    0 <= i < 1024 ==> #[trigger] bit(start, i) == (bit(first.seen@, i) || i
                        == offset),
                self.next_expected == first.next_expected + k,
                forall|i: int|
                    0 <= i < 1024 ==> #[trigger] bit(self.seen@, i) == (i + k < 1024 && bit(
                        start,
                        i + k,
                    )),
                forall|i: int| self.window_size <= i < 1024 ==> !#[trigger] bit(start, i),
                forall|i: int| 0 <= i < k ==> #[trigger] bit(start, i),
            decreases 1024 - k,
        {
            assert(bit(self.seen@, 0) == (k < 1024 && bit(start, 0 + k)));
            assert(self.next_expected < u64::MAX) by {
                assert(bit(start, 0));
                assert(offset == 0);
                let q = choose|q: int|
                    first@.next < q <= u64::MAX && !#[trigger] first@.ahead.contains(q);
                if self.next_expected == u64::MAX {
                    let i = q - first@.next;
                    assert(0 < i <= k);
                    assert(bit(start, i));
                    assert(bit(first.seen@, i));
                    assert(first@.ahead.contains(q));
                }
            }
            self.slide_one();
            proof {
                k = k + 1;
            }
        }
        proof {
            let a = first@;
            let b = self@;
            let s = seq as int;
            assert(!bit(self.seen@, 0));
            assert forall|i: int| self.window_size <= i < 1024 implies !#[trigger] bit(
                self.seen@,
                i,
            ) by {
                if i + k < 1024 {
                    assert(!bit(start, i + k));
                }
            }
            assert(k <= self.window_size) by {
                if k > self.window_size {
                    assert(bit(start, self.window_size as int));
                }
            }
            assert forall|i: int| 0 <= i < 1024 implies #[trigger] bit(start, i) == (bit(
                first.seen@,
                i,
            ) || i == offset) by {}
            assert forall|q: int| a.next <= q < b.next implies q == s || #[trigger] a.ahead.contains(
                q,
            ) by {
                assert(bit(start, q - a.next));
            }
            assert(b.next != s && !a.ahead.contains(b.next)) by {
                if k < 1024 {
                    assert(bit(self.seen@, 0) == bit(start, 0 + k));
                    assert(!bit(start, k));
                }
            }
            assert forall|q: int| #[trigger] b.ahead.contains(q) <==> q > b.next && (q == s
                || a.ahead.contains(q)) by {
                let i = q - b.next;
                if 0 <= i < 1024 {
                    assert(bit(self.seen@, i) == (i + k < 1024 && bit(start, i + k)));
                    if i + k < 1024 {
                        assert(bit(start, i + k) == (bit(first.seen@, i + k) || i + k == offset));
                    }
                }
            }
        }
        self.next_expected
    }

    /// Whether a number has been received.
    pub fn is_seen(&self, seq: u64) -> (r: bool)
        requires
            self.wf(),
        ensures
            r == self@.received(seq as int),
    {
        if seq < self.next_expected {
            return true;
        }
        let offset: u64 = seq - self.next_expected;
        if offset >= self.window_size as u64 {
            return false;
        }
        self.is_bit_set(offset as usize)
    }

    /// Forgets everything and starts at zero.
    pub fn reset(&mut self)
        requires
            old(self).wf(),
        ensures
            final(self).wf(),
            final(self)@ == (DedupView {
                next: 0,
                window: old(self)@.window,
                ahead: Set::empty(),
            }),
    {
        self.reset_to(0);
    }

    /// Forgets everything and starts at the given number.
    pub fn reset_to(&mut self, initial_seq: u64)
        requires
            old(self).wf(),
        ensures
            final(self).wf(),
            final(self)@ == (DedupView {
                next: initial_seq as int,
                window: old(self)@.window,
                ahead: Set::empty(),
            }),
    {
        self.next_expected = initial_seq;
        self.seen = [0;16];
        proof {
            lemma_zero_bits();
            assert(self@.ahead =~= Set::empty());
        }
    }

    /// The next expected number.
    pub fn next_expected(&self) -> (r: u64)
        ensures
            r == self@.next,
    {
        self.next_expected
    }

    /// The size of the window.
    pub fn window_size(&self) -> (r: usize)
        ensures
            r == self@.window,
    {
        self.window_size
    }

    fn is_bit_set(&self, offset: usize) -> (r: bool)
        requires
            self.window_size <= 1024,
            forall|i: int|
                self.window_size <= i < 1024 ==> !#[trigger] bit(self.seen@, i),
        ensures
            r == (offset < self.window_size && bit(self.seen@, offset as int)),
            offset < 1024 ==> r == bit(self.seen@, offset as int),
    {
        if offset >= self.window_size {
            return false;
        }
        let word: usize = offset / 64;
        let b: u64 = (offset % 64) as u64;
        (self.seen[word] >> b) & 1 == 1
    }

    fn set_bit(&mut self, offset: usize)
        requires
            old(self).window_size <= 1024,
            offset < old(self).window_size,
        ensures
            final(self).next_expected == old(self).next_expected,
            final(self).window_size == old(self).window_size,
            forall|i: int|
                0 <= i < 1024 ==> #[trigger] bit(final(self).seen@, i) == (bit(old(self).seen@, i)
                    || i == offset),
    {
        let word: usize = offset / 64;
        let b: u64 = (offset % 64) as u64;
        let ghost before = self.seen@;
        let w: u64 = self.seen[word];
        self.seen[word] = w | (1u64 << b);
        proof {
            assert forall|i: int| 0 <= i < 1024 implies #[trigger] bit(self.seen@, i) == (bit(
                before,
                i,
            ) || i == offset) by {
                if i / 64 == word {
                    lemma_set_bit(w, b, (i % 64) as u64);
                    assert(i == 64 * (i / 64) + i % 64);
                    assert(offset == 64 * word + b);
                }
            }
        }
    }

    /// Moves the window by one number.
    fn slide_one(&mut self)
        requires
            old(self).next_expected < u64::MAX,
        ensures
            final(self).next_expected == old(self).next_expected + 1,
            final(self).window_size == old(self).window_size,
            forall|i: int|
                0 <= i < 1024 ==> #[trigger] bit(final(self).seen@, i) == (i + 1 < 1024 && bit(
                    old(self).seen@,
                    i + 1,
                )),
    {
        self.next_expected = self.next_expected + 1;
        let ghost before = self.seen@;
        let mut i: usize = 0;
        while i < 16
            invariant
                i <= 16,
                before.len() == 16,
                self.next_expected == old(self).next_expected + 1,
                self.window_size == old(self).window_size,
                forall|w: int| i <= w < 16 ==> #[trigger] self.seen@[w] == before[w],
                forall|w: int|
                    0 <= w < i ==> #[trigger] self.seen@[w] == (if w + 1 < 16 {
                        (before[w] >> 1) | ((before[w + 1] & 1) << 63)
                    } else {
                        before[w] >> 1
                    }),
            decreases 16 - i,
        {
            let w: u64 = self.seen[i];
            if i + 1 < 16 {
                let n: u64 = self.seen[i + 1];
                assert(n == before[i + 1]);
                self.seen[i] = (w >> 1) | ((n & 1) << 63);
            } else {
                self.seen[i] = w >> 1;
            }
            i = i + 1;
        }
        proof {
            assert forall|j: int| 0 <= j < 1024 implies #[trigger] bit(self.seen@, j) == (j + 1
                < 1024 && bit(before, j + 1)) by {
                let w = j / 64;
                let b = (j % 64) as u64;
                assert(self.seen@[w] == (if w + 1 < 16 {
                    (before[w] >> 1) | ((before[w + 1] & 1) << 63)
                } else {
                    before[w] >> 1
                }));
                if w + 1 < 16 {
                    lemma_shift_bit(before[w], before[w + 1], b);
                } else {
                    lemma_shift_bit(before[w], 0, b);
                }
                if b < 63 {
                    assert((j + 1) / 64 == w && (j + 1) % 64 == b + 1);
                } else {
                    assert((j + 1) / 64 == w + 1 && (j + 1) % 64 == 0);
                }
            }
        }
    }
}

impl View for DedupWindow {
    type V = DedupView;

    open spec fn view(&self) -> DedupView {
        DedupView {
            next: self.spec_next() as int,
            window: self.spec_window() as int,
            ahead: self.spec_ahead(),
        }
    }
}

} // verus!
