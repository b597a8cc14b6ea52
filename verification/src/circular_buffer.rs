//! A first-in, first-out buffer of fixed capacity, kept in a ring of slots.

use vstd::prelude::*;

verus! {

/// Why a buffer operation failed.
#[derive(Debug, PartialEq, Eq, Structural)]
pub enum Error {
    EmptyBuffer,
    FullBuffer,
}

/// A ring of `cap` slots of which `len` are taken, the oldest at `pop_idx`.
pub struct CircularBuffer<T> {
    buf: Vec<Option<T>>,
    pop_idx: usize,
    len: usize,
    cap: usize,
}

/// The slot that is `offset` places after `start` in a ring of `cap` slots.
pub open spec fn ring_slot(start: int, offset: int, cap: int) -> int {
    if start + offset < cap {
        start + offset
    } else {
        start + offset - cap
    }
}

/// `n` empty slots.
fn empty_slots<T>(n: usize) -> (v: Vec<Option<T>>)
    ensures
        v@.len() == n,
        forall|i: int| 0 <= i < n ==> (#[trigger] v@[i]) is None,
{
    let mut v: Vec<Option<T>> = Vec::new();
    let mut i: usize = 0;
    while i < n
        invariant
            i <= n,
            v@.len() == i,
            forall|k: int| 0 <= k < i ==> (#[trigger] v@[k]) is None,
        decreases n - i,
    {
        v.push(None);
        i += 1;
    }
    v
}

impl<T> View for CircularBuffer<T> {
    type V = Seq<T>;

    /// The elements in the buffer, oldest first.
    closed spec fn view(&self) -> Seq<T> {
        Seq::new(
            self.len as nat,
            |i: int| self.buf@[ring_slot(self.pop_idx as int, i, self.cap as int)]->0,
        )
    }
}

impl<T> CircularBuffer<T> {
    /// How many elements the buffer can hold.
    pub closed spec fn capacity(&self) -> nat {
        self.cap as nat
    }

    /// The invariant of the ring: the taken slots are the `len` slots from
    /// `pop_idx` on, and exactly those hold an element.
    pub closed spec fn wf(&self) -> bool {
        &&& self.buf@.len() == self.cap
        &&& self.len <= self.cap
        &&& self.pop_idx < self.cap || (self.cap == 0 && self.pop_idx == 0)
        &&& forall|i: int|
            0 <= i < self.len ==> (#[trigger] self.buf@[ring_slot(
                self.pop_idx as int,
                i,
                self.cap as int,
            )]) is Some
        &&& forall|i: int|
            self.len <= i < self.cap ==> (#[trigger] self.buf@[ring_slot(
                self.pop_idx as int,
                i,
                self.cap as int,
            )]) is None
    }

    /// A well-formed buffer never holds more than its capacity.
    pub proof fn lemma_len_bounded(&self)
        requires
            self.wf(),
        ensures
            self@.len() <= self.capacity(),
    {
    }

    /// An empty buffer for `capacity` elements.
    pub fn new(capacity: usize) -> (b: Self)
        ensures
            b.wf(),
            b.capacity() == capacity,
            b@ == Seq::<T>::empty(),
    {
        let b = Self { buf: empty_slots(capacity), pop_idx: 0, len: 0, cap: capacity };
        proof {
            assert(b@ =~= Seq::<T>::empty());
        }
        b
    }

    fn write_index(&self) -> (i: usize)
        requires
            self.wf(),
            self.len < self.cap,
        ensures
            i == ring_slot(self.pop_idx as int, self.len as int, self.cap as int),
            i < self.cap,
    {
        if self.pop_idx < self.cap - self.len {
            self.pop_idx + self.len
        } else {
            self.pop_idx - (self.cap - self.len)
        }
    }

    fn buf_full(&self) -> (full: bool)
        ensures
            full == (self.len == self.cap),
    {
        self.len == self.cap
    }

    /// Appends `element`, or fails if the buffer is full.
    pub fn write(&mut self, element: T) -> (r: Result<(), Error>)
        requires
            old(self).wf(),
        ensures
            final(self).wf(),
            final(self).capacity() == old(self).capacity(),
            match r {
                Ok(()) => old(self)@.len() < old(self).capacity() && final(self)@ == old(
                    self,
                )@.push(element),
                Err(e) => e == Error::FullBuffer && old(self)@.len() == old(self).capacity()
                    && final(self)@ == old(self)@,
            },
    {
        if self.buf_full() {
            return Err(Error::FullBuffer);
        }
        let i = self.write_index();
        self.buf[i] = Some(element);
        self.len += 1;
        proof {
            let start = self.pop_idx as int;
            let cap = self.cap as int;
            assert forall|k: int| 0 <= k < self.len implies (#[trigger] self.buf@[ring_slot(
                start,
                k,
                cap,
            )]) is Some by {
                if k < old(self).len {
                    assert(old(self).buf@[ring_slot(start, k, cap)] is Some);
                }
            }
            assert forall|k: int| self.len <= k < self.cap implies (#[trigger] self.buf@[ring_slot(
                start,
                k,
                cap,
            )]) is None by {
                assert(old(self).buf@[ring_slot(start, k, cap)] is None);
            }
            assert(self@ =~= old(self)@.push(element));
        }
        Ok(())
    }

    fn read_index(&mut self) -> (i: usize)
        requires
            old(self).cap > 0,
            old(self).pop_idx < old(self).cap,
        ensures
            i == old(self).pop_idx,
            final(self).pop_idx == ring_slot(old(self).pop_idx as int, 1, old(self).cap as int),
            final(self).buf == old(self).buf,
            final(self).len == old(self).len,
            final(self).cap == old(self).cap,
    {
        let i = self.pop_idx;
        self.pop_idx = if i + 1 == self.cap {
            0
        } else {
            i + 1
        };
        i
    }

    /// Takes the oldest element out, or fails if the buffer is empty.
    pub fn read(&mut self) -> (r: Result<T, Error>)
        requires
            old(self).wf(),
        ensures
            final(self).wf(),
            final(self).capacity() == old(self).capacity(),
            match r {
                Ok(x) => old(self)@.len() > 0 && x == old(self)@[0] && final(self)@ == old(
                    self,
                )@.drop_first(),
                Err(e) => e == Error::EmptyBuffer && old(self)@.len() == 0 && final(self)@ == old(
                    self,
                )@,
            },
    {
        if self.len == 0 {
            return Err(Error::EmptyBuffer);
        }
        proof {
            assert(self.buf@[ring_slot(self.pop_idx as int, 0, self.cap as int)] is Some);
        }
        let i = self.read_index();
        let taken = self.buf[i].take();
        self.len -= 1;
        proof {
            let start = old(self).pop_idx as int;
            let next = self.pop_idx as int;
            let cap = self.cap as int;
            assert forall|k: int| 0 <= k < cap implies ring_slot(next, k, cap) == ring_slot(
                start,
                if k + 1 < cap {
                    k + 1
                } else {
                    0
                },
                cap,
            ) by {}
            assert forall|k: int| 0 <= k < self.len implies (#[trigger] self.buf@[ring_slot(
                next,
                k,
                cap,
            )]) is Some by {
                assert(old(self).buf@[ring_slot(start, k + 1, cap)] is Some);
            }
            assert forall|k: int| self.len <= k < self.cap implies (#[trigger] self.buf@[ring_slot(
                next,
                k,
                cap,
            )]) is None by {
                if k + 1 < cap {
                    assert(old(self).buf@[ring_slot(start, k + 1, cap)] is None);
                }
            }
            assert forall|k: int| 0 <= k < self.len implies self@[k] == old(self)@.drop_first()[k] by {
                assert(ring_slot(next, k, cap) == ring_slot(start, k + 1, cap));
            }
            assert(self@ =~= old(self)@.drop_first());
        }
        match taken {
            Some(x) => Ok(x),
            None => Err(Error::EmptyBuffer),
        }
    }

    /// Empties the buffer.
    pub fn clear(&mut self)
        ensures
            final(self).wf(),
            final(self).capacity() == old(self).capacity(),
            final(self)@ == Seq::<T>::empty(),
    {
        self.buf = empty_slots(self.cap);
        self.pop_idx = 0;
        self.len = 0;
        proof {
            assert(self@ =~= Seq::<T>::empty());
        }
    }

    /// Appends `element`; if the buffer is full, the oldest element makes
    /// room for it.
    pub fn overwrite(&mut self, element: T)
        requires
            old(self).wf(),
            old(self).capacity() > 0,
        ensures
            final(self).wf(),
            final(self).capacity() == old(self).capacity(),
            final(self)@ == if old(self)@.len() == old(self).capacity() {
                old(self)@.drop_first().push(element)
            } else {
                old(self)@.push(element)
            },
    {
        if self.buf_full() {
            let i = self.read_index();
            self.buf[i] = Some(element);
            proof {
                let start = old(self).pop_idx as int;
                let next = self.pop_idx as int;
                let cap = self.cap as int;
                assert forall|k: int| 0 <= k < cap implies ring_slot(next, k, cap) == ring_slot(
                    start,
                    if k + 1 < cap {
                        k + 1
                    } else {
                        0
                    },
                    cap,
                ) by {}
                assert forall|k: int| 0 <= k < self.len implies (#[trigger] self.buf@[ring_slot(
                    next,
                    k,
                    cap,
                )]) is Some by {
                    if k + 1 < cap {
                        assert(old(self).buf@[ring_slot(start, k + 1, cap)] is Some);
                    }
                }
                assert forall|k: int| 0 <= k < self.len implies self@[k] == old(
                    self,
                )@.drop_first().push(element)[k] by {
                    if k + 1 < cap {
                        assert(ring_slot(next, k, cap) == ring_slot(start, k + 1, cap));
                    }
                }
                assert(self@ =~= old(self)@.drop_first().push(element));
            }
        } else {
            let r = self.write(element);
            assert(r is Ok);
        }
    }
}

} // verus!
