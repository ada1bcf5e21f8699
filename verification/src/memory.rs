//! Small tools to bound and account for memory: a usage tracker with an optional limit, a
//! bump allocator over a fixed buffer, and a buffer of at most `N` bytes.
use vstd::prelude::*;

verus! {

/// What a `MemoryTracker` holds: the bytes recorded as allocated now, the most there have
/// been since the last reset, and the limit (0 for none).
pub struct TrackerState {
    pub current: nat,
    pub peak: nat,
    pub limit: nat,
}

impl TrackerState {
    /// The peak is never below the current usage, and never above a limit that is set.
    pub open spec fn wf(self) -> bool {
        &&& self.current <= self.peak
        &&& self.limit > 0 ==> self.peak <= self.limit
    }
}

/// What can be done to a tracker.
pub enum TrackerOp {
    Allocate(nat),
    Deallocate(nat),
    Reset,
}

/// The state of a tracker after `op`: an allocation beyond a set limit changes nothing,
/// another one adds to the usage and raises the peak to it; a deallocation takes from the
/// usage down to 0 at most; a reset sets the usage and the peak to 0.
pub open spec fn tracker_after(s: TrackerState, op: TrackerOp) -> TrackerState {
    match op {
        TrackerOp::Allocate(b) => if s.limit > 0 && s.current + b > s.limit {
            s
        } else {
            TrackerState {
                current: s.current + b,
                peak: if s.current + b > s.peak { s.current + b } else { s.peak },
                limit: s.limit,
            }
        },
        TrackerOp::Deallocate(b) => TrackerState {
            current: if s.current >= b { (s.current - b) as nat } else { 0 },
            peak: s.peak,
            limit: s.limit,
        },
        TrackerOp::Reset => TrackerState { current: 0, peak: 0, limit: s.limit },
    }
}

/// The state after the operations `ops`, one after the other, from `s`.
pub open spec fn tracker_run(s: TrackerState, ops: Seq<TrackerOp>) -> TrackerState
    decreases ops.len(),
{
    if ops.len() == 0 {
        s
    } else {
        tracker_after(tracker_run(s, ops.drop_last()), ops.last())
    }
}

/// The number of operations up to and including the last reset in `ops` (0 without one).
pub open spec fn last_reset(ops: Seq<TrackerOp>) -> nat
    decreases ops.len(),
{
    if ops.len() == 0 {
        0
    } else if ops.last() is Reset {
        ops.len()
    } else {
        last_reset(ops.drop_last())
    }
}

/// The peak of a tracker is the highest usage it has recorded since it was made or last
/// reset: from a fresh tracker with limit `limit` (0 for none), after any operations, every
/// usage seen since the last reset is at most the peak, one of them equals it, the usage
/// is at most the peak, and the peak is at most a limit that is set.
pub proof fn law_tracker_peak(limit: nat, ops: Seq<TrackerOp>)
    ensures
        ({
            let init = TrackerState { current: 0, peak: 0, limit: limit };
            let s = tracker_run(init, ops);
            &&& s.wf()
            &&& s.limit == limit
            &&& last_reset(ops) <= ops.len()
            &&& forall|k: int|
                last_reset(ops) <= k <= ops.len() ==> #[trigger] tracker_run(init, ops.take(k)).current
                    <= s.peak
            &&& exists|k: int|
                last_reset(ops) <= k <= ops.len() && #[trigger] tracker_run(init, ops.take(k)).current
                    == s.peak
        }),
    decreases ops.len(),
{
    let init = TrackerState { current: 0, peak: 0, limit: limit };
    let n = ops.len() as int;
    assert(ops.take(n) =~= ops);
    if n == 0 {
        assert(tracker_run(init, ops.take(0)).current == tracker_run(init, ops).peak);
    } else {
        let d = ops.drop_last();
        law_tracker_peak(limit, d);
        let s0 = tracker_run(init, d);
        let s = tracker_run(init, ops);
        assert forall|k: int| 0 <= k <= n - 1 implies #[trigger] ops.take(k) == d.take(k) by {
            assert(ops.take(k) =~= d.take(k));
        }
        if ops.last() is Reset {
            assert(tracker_run(init, ops.take(n)).current == s.peak);
        } else {
            assert(last_reset(ops) == last_reset(d));
            assert forall|k: int| last_reset(ops) <= k <= n implies #[trigger] tracker_run(
                init,
                ops.take(k),
            ).current <= s.peak by {
                if k < n {
                    assert(ops.take(k) == d.take(k));
                }
            }
            let w = choose|k: int|
                last_reset(d) <= k <= d.len() && #[trigger] tracker_run(init, d.take(k)).current
                    == s0.peak;
            assert(ops.take(w) == d.take(w));
            if s.peak == s0.peak {
                assert(tracker_run(init, ops.take(w)).current == s.peak);
            } else {
                assert(tracker_run(init, ops.take(n)).current == s.peak);
            }
        }
    }
}

/// Records allocations and deallocations, and refuses allocations beyond a limit.
#[derive(Debug)]
pub struct MemoryTracker {
    current: usize,
    peak: usize,
    limit: usize,
}

impl View for MemoryTracker {
    type V = TrackerState;

    closed spec fn view(&self) -> TrackerState {
        TrackerState { current: self.current as nat, peak: self.peak as nat, limit: self.limit as nat }
    }
}

/// The message of a refused allocation.
pub const MEMORY_LIMIT_EXCEEDED: &'static str = "Memory limit exceeded";

impl MemoryTracker {
    /// The usage is never above the peak, and the peak never above a limit that is set.
    #[verifier::type_invariant]
    closed spec fn counts_in_bounds(self) -> bool {
        &&& self.current <= self.peak
        &&& self.limit > 0 ==> self.peak <= self.limit
    }

    /// A tracker with no limit.
    pub fn new() -> (r: MemoryTracker)
        ensures
            r@ == (TrackerState { current: 0, peak: 0, limit: 0 }),
    {
        MemoryTracker { current: 0, peak: 0, limit: 0 }
    }

    /// A tracker that refuses to go beyond `limit` bytes (0 for no limit).
    pub fn with_limit(limit: usize) -> (r: MemoryTracker)
        ensures
            r@ == (TrackerState { current: 0, peak: 0, limit: limit as nat }),
    {
        MemoryTracker { current: 0, peak: 0, limit }
    }

    /// Records an allocation of `bytes`. With a limit, one that would take the usage beyond
    /// it is refused and changes nothing; otherwise the usage grows by `bytes` and the peak
    /// follows it.
    pub fn allocate(&mut self, bytes: usize) -> (r: Result<(), &'static str>)
        requires
            old(self)@.current + bytes <= usize::MAX,
        ensures
            final(self)@ == tracker_after(old(self)@, TrackerOp::Allocate(bytes as nat)),
            final(self)@.wf(),
            old(self)@.limit > 0 && old(self)@.current + bytes > old(self)@.limit ==> (r matches Err(
                m,
            ) && m@ == MEMORY_LIMIT_EXCEEDED@),
            !(old(self)@.limit > 0 && old(self)@.current + bytes > old(self)@.limit) ==> r is Ok,
    {
        proof {
            use_type_invariant(&*self);
        }
        let new_current = self.current + bytes;
        if self.limit > 0 && new_current > self.limit {
            return Err(MEMORY_LIMIT_EXCEEDED);
        }
        let new_peak = if new_current > self.peak {
            new_current
        } else {
            self.peak
        };
        *self = MemoryTracker { current: new_current, peak: new_peak, limit: self.limit };
        Ok(())
    }

    /// Records a deallocation of `bytes`; the usage does not go below 0, the peak stays.
    pub fn deallocate(&mut self, bytes: usize)
        ensures
            final(self)@ == tracker_after(old(self)@, TrackerOp::Deallocate(bytes as nat)),
            final(self)@.wf(),
    {
        proof {
            use_type_invariant(&*self);
        }
        self.current = self.current.saturating_sub(bytes);
    }

    /// The bytes recorded as allocated.
    pub fn current(&self) -> (r: usize)
        ensures
            r == self@.current,
            self@.wf(),
    {
        proof {
            use_type_invariant(self);
        }
        self.current
    }

    /// The most bytes recorded as allocated at once since creation or the last reset.
    pub fn peak(&self) -> (r: usize)
        ensures
            r == self@.peak,
            self@.wf(),
    {
        proof {
            use_type_invariant(self);
        }
        self.peak
    }

    /// The limit (0 for none).
    pub fn limit(&self) -> (r: usize)
        ensures
            r == self@.limit,
            self@.wf(),
    {
        proof {
            use_type_invariant(self);
        }
        self.limit
    }

    /// Sets the usage and the peak back to 0; the limit stays.
    pub fn reset(&mut self)
        ensures
            final(self)@ == tracker_after(old(self)@, TrackerOp::Reset),
    {
        *self = MemoryTracker { current: 0, peak: 0, limit: self.limit };
    }
}

impl Default for MemoryTracker {
    fn default() -> (r: MemoryTracker)
        ensures
            r@ == (TrackerState { current: 0, peak: 0, limit: 0 }),
    {
        MemoryTracker::new()
    }
}

/// The counts of an arena: its capacity and how much of it is handed out.
struct ArenaCounts {
    capacity: usize,
    position: usize,
}

impl ArenaCounts {
    /// The pieces handed out lie within the capacity.
    #[verifier::type_invariant]
    closed spec fn in_bounds(self) -> bool {
        self.position <= self.capacity
    }
}

/// A bump allocator: hands out consecutive pieces of a buffer of fixed capacity, until
/// reset.
pub struct Arena {
    buffer: Vec<u8>,
    counts: ArenaCounts,
}

impl Arena {
    /// The capacity of the buffer.
    pub closed spec fn spec_capacity(&self) -> nat {
        self.counts.capacity as nat
    }

    /// The bytes handed out since creation or the last reset.
    pub closed spec fn spec_used(&self) -> nat {
        self.counts.position as nat
    }

    /// The bytes of the buffer, `capacity` of them.
    pub closed spec fn bytes(&self) -> Seq<u8> {
        if self.buffer@.len() >= self.counts.capacity {
            self.buffer@.subrange(0, self.counts.capacity as int)
        } else {
            self.buffer@ + Seq::new(
                (self.counts.capacity - self.buffer@.len()) as nat,
                |i: int| 0u8,
            )
        }
    }

    /// An arena of `capacity` zero bytes, none of them handed out.
    pub fn with_capacity(capacity: usize) -> (r: Arena)
        ensures
            r.spec_capacity() == capacity,
            r.spec_used() == 0,
            r.bytes() == Seq::new(capacity as nat, |i: int| 0u8),
    {
        let r = Arena { buffer: vec![0u8; capacity], counts: ArenaCounts { capacity, position: 0 } };
        assert(r.bytes() =~= Seq::new(capacity as nat, |i: int| 0u8));
        r
    }

    /// Hands out the next `size` bytes, or nothing when fewer than `size` are left. The
    /// piece covers the offsets from the bytes handed out so far to `size` more, so it
    /// overlaps no piece handed out since the last reset; what is written into it is
    /// written into the arena there.
    pub fn alloc_bytes(&mut self, size: usize) -> (r: Option<&mut [u8]>)
        ensures
            final(self).spec_capacity() == old(self).spec_capacity(),
            final(self).spec_used() <= final(self).spec_capacity(),
            size <= old(self).spec_capacity() - old(self).spec_used() ==> {
                &&& r is Some
                &&& r->0@ == old(self).bytes().subrange(
                    old(self).spec_used() as int,
                    old(self).spec_used() + size,
                )
                &&& final(self).spec_used() == old(self).spec_used() + size
                &&& final(r->0)@.len() == size ==> final(self).bytes() == old(self).bytes().subrange(
                    0,
                    old(self).spec_used() as int,
                ) + final(r->0)@ + old(self).bytes().subrange(
                    old(self).spec_used() + size,
                    old(self).spec_capacity() as int,
                )
            },
            size > old(self).spec_capacity() - old(self).spec_used() ==> {
                &&& r is None
                &&& final(self).spec_used() == old(self).spec_used()
                &&& final(self).bytes() == old(self).bytes()
            },
    {
        proof {
            use_type_invariant(&self.counts);
        }
        let pos = self.counts.position;
        let cap = self.counts.capacity;
        if size > cap - pos {
            return None;
        }
        let ghost b0 = self.bytes();
        // A piece handed out cannot change the length of the buffer, but nothing here says
        // so; bringing the length back to the capacity keeps the offsets below in range.
        if self.buffer.len() != cap {
            let ghost v0 = self.buffer@;
            self.buffer.resize(cap, 0u8);
            proof {
                if v0.len() < cap {
                    assert forall|i: int| v0.len() <= i < cap implies self.buffer@[i] == 0u8 by {
                        assert(cloned::<u8>(0u8, self.buffer@[i]));
                    }
                }
            }
        }
        assert(self.buffer@ =~= b0);
        self.counts = ArenaCounts { capacity: cap, position: pos + size };
        let whole = self.buffer.as_mut_slice();
        let (left, rest) = whole.split_at_mut(pos);
        let (piece, tail) = rest.split_at_mut(size);
        assert(piece@ =~= b0.subrange(pos as int, pos + size));
        Some(piece)
    }

    /// The bytes handed out since creation or the last reset.
    pub fn used(&self) -> (r: usize)
        ensures
            r == self.spec_used(),
            r <= self.spec_capacity(),
    {
        proof {
            use_type_invariant(&self.counts);
        }
        self.counts.position
    }

    /// The capacity of the buffer.
    pub fn capacity(&self) -> (r: usize)
        ensures
            r == self.spec_capacity(),
    {
        self.counts.capacity
    }

    /// The bytes that can still be handed out.
    pub fn remaining(&self) -> (r: usize)
        ensures
            r == self.spec_capacity() - self.spec_used(),
    {
        proof {
            use_type_invariant(&self.counts);
        }
        self.counts.capacity - self.counts.position
    }

    /// Makes the whole buffer available again; its bytes stay.
    pub fn reset(&mut self)
        ensures
            final(self).spec_capacity() == old(self).spec_capacity(),
            final(self).spec_used() == 0,
            final(self).bytes() == old(self).bytes(),
    {
        self.counts = ArenaCounts { capacity: self.counts.capacity, position: 0 };
    }
}

/// A buffer of at most `N` bytes.
pub struct StackBuffer<const N: usize> {
    data: Vec<u8>,
}

impl<const N: usize> View for StackBuffer<N> {
    type V = Seq<u8>;

    closed spec fn view(&self) -> Seq<u8> {
        self.data@
    }
}

impl<const N: usize> StackBuffer<N> {
    /// The buffer holds no more than `N` bytes. Every buffer made by this type's functions
    /// is well formed, and `push` and `extend_from_slice` keep it so; after a change through
    /// `as_mut_slice` nothing here states it, since a slice's length is not stated to stay.
    pub closed spec fn wf(&self) -> bool {
        self.data@.len() <= N
    }

    /// An empty buffer.
    pub fn new() -> (r: Self)
        ensures
            r.wf(),
            r@ == Seq::<u8>::empty(),
    {
        StackBuffer { data: Vec::new() }
    }

    /// A buffer holding the bytes of `slice`, or nothing when there are more than `N`.
    pub fn from_slice(slice: &[u8]) -> (r: Option<Self>)
        ensures
            slice@.len() <= N ==> (r matches Some(b) && b.wf() && b@ == slice@),
            slice@.len() > N ==> r is None,
    {
        if slice.len() > N {
            return None;
        }
        let mut data: Vec<u8> = Vec::new();
        data.extend_from_slice(slice);
        assert(data@ =~= slice@);
        Some(StackBuffer { data })
    }

    /// The bytes held.
    pub fn as_slice(&self) -> (r: &[u8])
        ensures
            r@ == self@,
    {
        self.data.as_slice()
    }

    /// The bytes held, to change in place.
    pub fn as_mut_slice(&mut self) -> (r: &mut [u8])
        ensures
            r@ == old(self)@,
            final(self)@ == final(r)@,
    {
        self.data.as_mut_slice()
    }

    /// The number of bytes held.
    pub fn len(&self) -> (r: usize)
        ensures
            r == self@.len(),
    {
        self.data.len()
    }

    /// Whether no byte is held.
    pub fn is_empty(&self) -> (r: bool)
        ensures
            r == (self@.len() == 0),
    {
        self.data.len() == 0
    }

    /// The most bytes the buffer can hold.
    pub fn capacity(&self) -> (r: usize)
        ensures
            r == N,
    {
        N
    }

    /// Drops every byte held.
    pub fn clear(&mut self)
        ensures
            final(self).wf(),
            final(self)@ == Seq::<u8>::empty(),
    {
        self.data.clear();
    }

    /// Appends `byte` when there is room; says whether it did. A full buffer is unchanged.
    pub fn push(&mut self, byte: u8) -> (r: bool)
        ensures
            old(self).wf() ==> final(self).wf(),
            r == (old(self)@.len() < N),
            r ==> final(self)@ == old(self)@.push(byte),
            !r ==> final(self)@ == old(self)@,
    {
        if self.data.len() >= N {
            return false;
        }
        self.data.push(byte);
        true
    }

    /// Appends the bytes of `slice` when they all fit; says whether it did. Otherwise the
    /// buffer is unchanged.
    pub fn extend_from_slice(&mut self, slice: &[u8]) -> (r: bool)
        ensures
            old(self).wf() ==> final(self).wf(),
            r == (old(self)@.len() + slice@.len() <= N),
            r ==> final(self)@ == old(self)@ + slice@,
            !r ==> final(self)@ == old(self)@,
    {
        if self.data.len() > N || slice.len() > N - self.data.len() {
            return false;
        }
        self.data.extend_from_slice(slice);
        true
    }
}

impl<const N: usize> Default for StackBuffer<N> {
    fn default() -> (r: Self)
        ensures
            r.wf(),
            r@ == Seq::<u8>::empty(),
    {
        Self::new()
    }
}

} // verus!
