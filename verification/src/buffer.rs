//! A pool of byte buffers in three sizes.
//!
//! | level  | capacity | use                    |
//! |--------|----------|------------------------|
//! | small  | 256 B    | messages, frame bodies |
//! | medium | 1500 B   | datagrams              |
//! | large  | 16 KiB   | large frames           |
//!
//! Each level keeps a limited number of free buffers; what is returned beyond that is dropped.

use bytes::BytesMut;
use vstd::prelude::*;

use crate::outside;

verus! {

/// The capacity of a small buffer.
pub const SMALL_CAP: usize = 256;

/// The capacity of a medium buffer.
pub const MEDIUM_CAP: usize = 1500;

/// The capacity of a large buffer.
pub const LARGE_CAP: usize = 16384;

/// How many free buffers a level keeps.
pub const FREE_PER_LEVEL: usize = 1024;

/// The free buffers of one size.
#[derive(Debug)]
struct Level {
    cap: usize,
    free: Vec<BytesMut>,
}

/// The pool.
#[derive(Debug)]
pub struct BufferPool {
    levels: Vec<Level>,
}

/// The capacity of a level.
pub open spec fn level_cap(level: int) -> usize {
    if level == 0 {
        SMALL_CAP
    } else if level == 1 {
        MEDIUM_CAP
    } else {
        LARGE_CAP
    }
}

/// The level for buffers of a capacity: the smallest that is large enough, else the largest.
pub open spec fn level_of(cap: usize) -> int {
    if cap <= SMALL_CAP {
        0
    } else if cap <= MEDIUM_CAP {
        1
    } else {
        2
    }
}

/// The pool after a buffer was asked for: the number of free buffers per level.
pub open spec fn acquired(free: Seq<nat>, min: usize) -> Seq<nat> {
    let l = level_of(min);
    if free[l] > 0 {
        free.update(l, (free[l] - 1) as nat)
    } else {
        free
    }
}

/// The pool after a buffer of capacity `cap` was returned: it is kept if it is not larger than
/// its level allows and the level is not full.
pub open spec fn released(free: Seq<nat>, cap: usize) -> Seq<nat> {
    let l = level_of(cap);
    if cap <= level_cap(l) && free[l] < FREE_PER_LEVEL {
        free.update(l, free[l] + 1)
    } else {
        free
    }
}

impl View for BufferPool {
    type V = Seq<nat>;

    closed spec fn view(&self) -> Seq<nat> {
        Seq::new(self.levels@.len(), |i: int| self.levels@[i].free@.len())
    }
}

impl BufferPool {
    /// Three levels, none above its limit.
    pub closed spec fn wf(&self) -> bool {
        &&& self.levels@.len() == 3
        &&& forall|i: int|
            0 <= i < 3 ==> (#[trigger] self.levels@[i]).cap == level_cap(i)
                && self.levels@[i].free@.len() <= FREE_PER_LEVEL
    }

    /// No level keeps more than its limit.
    pub proof fn wf_means(&self)
        requires
            self.wf(),
        ensures
            self@.len() == 3,
            forall|i: int| 0 <= i < 3 ==> #[trigger] self@[i] <= FREE_PER_LEVEL,
    {
    }

    /// A pool without free buffers.
    pub fn new() -> (p: Self)
        ensures
            p.wf(),
            p@ == seq![0nat, 0nat, 0nat],
    {
        let mut levels: Vec<Level> = Vec::new();
        levels.push(Level { cap: SMALL_CAP, free: Vec::new() });
        levels.push(Level { cap: MEDIUM_CAP, free: Vec::new() });
        levels.push(Level { cap: LARGE_CAP, free: Vec::new() });
        let p = BufferPool { levels };
        assert(p@ =~= seq![0nat, 0nat, 0nat]);
        p
    }

    /// The level for buffers of a capacity.
    fn level_for(min: usize) -> (l: usize)
        ensures
            l == level_of(min),
            l < 3,
    {
        if min <= SMALL_CAP {
            0
        } else if min <= MEDIUM_CAP {
            1
        } else {
            2
        }
    }

    /// An empty buffer with room for `min` bytes: a free one if there is one, else a new one.
    pub fn acquire(&mut self, min: usize) -> (b: BytesMut)
        requires
            old(self).wf(),
            min <= isize::MAX,
        ensures
            final(self).wf(),
            final(self)@ == acquired(old(self)@, min),
            outside::buffered(b) == Seq::<u8>::empty(),
            forall|n: usize| call_ensures(BytesMut::capacity, (&b,), n) ==> n >= min,
    {
        let ghost free = self@;
        let l: usize = Self::level_for(min);
        let ghost was = self.levels@;
        let level = &mut self.levels[l];
        let cap: usize = level.cap;
        let popped = level.free.pop();
        assert(self.levels@ =~= was.update(l as int, self.levels@[l as int]));
        assert(self@ =~= acquired(free, min));
        match popped {
            Some(taken) => {
                let mut b = taken;
                b.clear();
                b.reserve(min);
                b
            },
            None => BytesMut::with_capacity(
                if cap > min {
                    cap
                } else {
                    min
                },
            ),
        }
    }

    /// Takes a buffer back that can hold `cap` bytes.
    pub fn release_with(&mut self, buf: BytesMut, cap: usize)
        requires
            old(self).wf(),
        ensures
            final(self).wf(),
            final(self)@ == released(old(self)@, cap),
    {
        let ghost free = self@;
        let l: usize = Self::level_for(cap);
        let ghost was = self.levels@;
        let level = &mut self.levels[l];
        if cap > level.cap || level.free.len() >= FREE_PER_LEVEL {
            assert(self.levels@ =~= was);
            return;
        }
        let mut kept = buf;
        kept.clear();
        level.free.push(kept);
        assert(self.levels@ =~= was.update(l as int, self.levels@[l as int]));
        assert(self@ =~= released(free, cap));
    }

    /// Takes a buffer back; the level is that of the capacity that the buffer has. Which one that
    /// is depends on the allocator.
    pub fn release(&mut self, buf: BytesMut)
        requires
            old(self).wf(),
        ensures
            final(self).wf(),
            exists|cap: usize|
                call_ensures(BytesMut::capacity, (&buf,), cap) && final(self)@
                    == #[trigger] released(old(self)@, cap),
    {
        let cap: usize = buf.capacity();
        self.release_with(buf, cap);
    }
}

impl Default for BufferPool {
    fn default() -> (p: Self)
        ensures
            p.wf(),
            p@ == seq![0nat, 0nat, 0nat],
    {
        Self::new()
    }
}

/// A buffer is not kept if and only if it is larger than the largest level allows or its level is
/// full.
pub proof fn what_does_not_fit_is_dropped(free: Seq<nat>, cap: usize)
    requires
        free.len() == 3,
    ensures
        released(free, cap) == free <==> cap > LARGE_CAP || free[level_of(cap)] >= FREE_PER_LEVEL,
{
    let l = level_of(cap);
    assert(free.update(l, free[l] + 1)[l] != free[l]);
}

/// A buffer that is returned is the next one of its level to be handed out: asking again takes
/// it back out, and the pool is as it was.
pub proof fn release_then_acquire(free: Seq<nat>, cap: usize, min: usize)
    requires
        free.len() == 3,
        cap <= level_cap(level_of(cap)),
        free[level_of(cap)] < FREE_PER_LEVEL,
        level_of(min) == level_of(cap),
    ensures
        acquired(released(free, cap), min) == free,
{
    assert(acquired(released(free, cap), min) =~= free);
}

/// Sizes decide: up to 256 bytes the first level, up to 1500 the second, else the third. A request
/// takes one free buffer of its level if there is one; a return adds one to its level if there is
/// room for it among at most 1024 and it is no larger than 16384 bytes. No other level changes.
pub proof fn levels_go_by_size(free: Seq<nat>, n: usize, level: int)
    requires
        free.len() == 3,
        0 <= level < 3,
    ensures
        ({
            let mine = if n <= 256 {
                level == 0
            } else if n <= 1500 {
                level == 1
            } else {
                level == 2
            };
            let took = acquired(free, n);
            let gave = released(free, n);
            &&& took.len() == 3
            &&& gave.len() == 3
            &&& took[level] == if mine && free[level] > 0 {
                free[level] - 1
            } else {
                free[level] as int
            }
            &&& gave[level] == if mine && free[level] < 1024 && n <= 16384 {
                free[level] + 1
            } else {
                free[level]
            }
        }),
{
}

} // verus!
