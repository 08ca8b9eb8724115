//! A fixed-capacity buffer that keeps the most recently written values.

use std::fmt::Debug;
use vstd::prelude::*;

verus! {

/// A fixed-size buffer that can be written to any number of times. Once it is
/// full, each write drops the value that was written longest ago.
///
/// `inner` is the storage: its length is the capacity, and it never changes.
/// `write_cursor` is the slot that the next write fills, and `len` counts the
/// slots that have been written, up to the capacity.
#[derive(Clone, Debug)]
pub struct RingBuffer<T> {
    pub inner: Vec<T>,
    pub write_cursor: usize,
    pub len: usize,
}

impl<T> View for RingBuffer<T> {
    type V = Seq<T>;

    /// The values held, from the one written longest ago to the newest.
    open spec fn view(&self) -> Seq<T> {
        if self.len as nat == self.inner@.len() {
            self.inner@.subrange(self.write_cursor as int, self.inner@.len() as int)
                + self.inner@.subrange(0, self.write_cursor as int)
        } else {
            self.inner@.subrange(0, self.len as int)
        }
    }
}

/// What a buffer of capacity `capacity` that holds `held` holds after `value` is written.
pub open spec fn slide<T>(held: Seq<T>, value: T, capacity: nat) -> Seq<T> {
    if held.len() < capacity {
        held.push(value)
    } else {
        held.drop_first().push(value)
    }
}

/// The last `capacity` values of `written`, or all of them if there are fewer.
pub open spec fn window<T>(written: Seq<T>, capacity: nat) -> Seq<T> {
    if written.len() <= capacity {
        written
    } else {
        written.subrange(written.len() - capacity, written.len() as int)
    }
}

/// Writing one value after another keeps exactly the newest `capacity` of them:
/// the window over a history that grew by `value` is the slid window over the
/// history before.
pub proof fn lemma_slide_keeps_window<T>(written: Seq<T>, value: T, capacity: nat)
    requires
        capacity > 0,
    ensures
        window(written.push(value), capacity) == slide(window(written, capacity), value, capacity),
{
    let before = window(written, capacity);
    let after = window(written.push(value), capacity);
    assert(after =~= slide(before, value, capacity));
}

impl<T> RingBuffer<T> {
    /// The number of values the buffer can hold.
    pub open spec fn capacity(&self) -> nat {
        self.inner@.len()
    }

    /// The three fields fit together: no more values than slots, the cursor on
    /// a slot, and, until the buffer has filled up, the cursor on the first
    /// slot never written.
    pub open spec fn wf(&self) -> bool {
        &&& self.len <= self.inner@.len()
        &&& if (self.len as nat) < self.inner@.len() {
            self.write_cursor == self.len
        } else {
            self.write_cursor < self.inner@.len() || self.write_cursor == 0
        }
    }
}

impl<T: Clone + Debug> RingBuffer<T> {
    /// A buffer of `size` slots that holds nothing yet. Every slot starts out
    /// as a clone of `default`.
    pub fn new(size: usize, default: T) -> (buffer: RingBuffer<T>)
        ensures
            buffer.wf(),
            buffer@ == Seq::<T>::empty(),
            buffer.capacity() == size,
            buffer.write_cursor == 0,
            buffer.len == 0,
            forall|i: int| 0 <= i < size ==> cloned(default, #[trigger] buffer.inner@[i]),
    {
        let mut inner: Vec<T> = Vec::new();
        let mut filled: usize = 0;
        while filled < size
            invariant
                filled <= size,
                inner@.len() == filled,
                forall|i: int| 0 <= i < filled ==> cloned(default, #[trigger] inner@[i]),
            decreases size - filled,
        {
            inner.push(default.clone());
            filled += 1;
        }
        RingBuffer { inner, write_cursor: 0, len: 0 }
    }

    /// Writes `value` into the slot under the cursor and moves the cursor on,
    /// back to the first slot after the last. A full buffer loses its oldest
    /// value; the capacity stays as it is.
    pub fn write(&mut self, value: T)
        requires
            old(self).wf(),
            old(self).capacity() > 0,
        ensures
            final(self).wf(),
            final(self).capacity() == old(self).capacity(),
            final(self)@ == slide(old(self)@, value, old(self).capacity()),
            final(self).inner@ == old(self).inner@.update(old(self).write_cursor as int, value),
            final(self).write_cursor == if old(self).write_cursor + 1 == old(self).capacity() {
                0
            } else {
                old(self).write_cursor + 1
            },
    {
        let ind: usize = self.write_cursor;
        assert(ind < self.inner.len());
        self.inner[ind] = value;
        self.write_cursor += 1;
        if self.len < self.inner.len() {
            self.len += 1;
        }
        if self.write_cursor == self.inner.len() {
            self.write_cursor = 0;
        }
        assert(self@ =~= slide(old(self)@, value, old(self).capacity()));
    }

    /// Clones of the values held, oldest first.
    pub fn contents(&self) -> (values: Vec<T>)
        requires
            self.wf(),
        ensures
            values@.len() == self@.len(),
            forall|i: int| 0 <= i < values@.len() ==> cloned(#[trigger] self@[i], values@[i]),
    {
        let mut values: Vec<T> = Vec::new();
        if self.len == self.inner.len() {
            let mut i: usize = self.write_cursor;
            while i < self.inner.len()
                invariant
                    self.wf(),
                    self.len == self.inner@.len(),
                    self.write_cursor <= i <= self.inner@.len(),
                    values@.len() == i - self.write_cursor,
                    forall|k: int|
                        0 <= k < values@.len() ==> cloned(#[trigger] self@[k], values@[k]),
                decreases self.inner@.len() - i,
            {
                values.push(self.inner[i].clone());
                i += 1;
            }
            let mut j: usize = 0;
            while j < self.write_cursor
                invariant
                    self.wf(),
                    self.len == self.inner@.len(),
                    j <= self.write_cursor,
                    values@.len() == self.inner@.len() - self.write_cursor + j,
                    forall|k: int|
                        0 <= k < values@.len() ==> cloned(#[trigger] self@[k], values@[k]),
                decreases self.write_cursor - j,
            {
                values.push(self.inner[j].clone());
                j += 1;
            }
        } else {
            let mut i: usize = 0;
            while i < self.len
                invariant
                    self.wf(),
                    self.len < self.inner@.len(),
                    i <= self.len,
                    values@.len() == i,
                    forall|k: int|
                        0 <= k < values@.len() ==> cloned(#[trigger] self@[k], values@[k]),
                decreases self.len - i,
            {
                values.push(self.inner[i].clone());
                i += 1;
            }
        }
        values
    }

    /// The number of values held.
    pub fn len(&self) -> (n: usize)
        ensures
            n == self.len,
            self.wf() ==> n == self@.len(),
    {
        self.len
    }
}

} // verus!
