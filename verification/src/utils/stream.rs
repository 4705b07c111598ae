//! A fixed-capacity, non-blocking ring buffer moving values from a producer
//! to a consumer.
//!
//! The buffer has [`STREAM_CAPACITY`] slots and two cursors. It is empty when
//! the cursors are equal and full when the write cursor is one step (modulo
//! the capacity) behind the read cursor, so one slot is permanently
//! sacrificed and at most `STREAM_CAPACITY - 1` items are ever resident.
//! `Full` and `Empty` are flow-control signals, not faults: no operation
//! blocks. A single instance shared by several producers or consumers must be
//! serialized externally (for example behind a mutex).

use vstd::prelude::*;

use crate::config::STREAM_CAPACITY;

verus! {

/// Flow-control outcome of a stream operation that could not proceed.
#[derive(Clone, Copy, Debug, PartialEq, Eq, Structural)]
pub enum StreamError {
    /// The buffer already holds `STREAM_CAPACITY - 1` items.
    Full,
    /// The buffer holds no item.
    Empty,
}

/// Fixed-capacity ring buffer with a read cursor and a write cursor.
///
/// Its view is the sequence of resident items, oldest first.
pub struct Stream<T> {
    pool: Vec<Option<T>>,
    read_index: usize,
    write_index: usize,
}

impl<T> View for Stream<T> {
    type V = Seq<T>;

    /// The resident items, oldest first.
    closed spec fn view(&self) -> Seq<T> {
        Seq::new(self.spec_count() as nat, |i: int| self.pool@[self.slot_of(i)]->0)
    }
}

impl<T> Stream<T> {
    /// Number of items resident: the cursor distance around the ring.
    pub closed spec fn spec_count(self) -> int {
        if self.write_index >= self.read_index {
            self.write_index - self.read_index
        } else {
            self.write_index + STREAM_CAPACITY - self.read_index
        }
    }

    /// The slot holding the `i`-th oldest resident item.
    closed spec fn slot_of(self, i: int) -> int {
        if self.read_index + i < STREAM_CAPACITY {
            self.read_index + i
        } else {
            self.read_index + i - STREAM_CAPACITY
        }
    }

    /// The slot the next write goes to.
    pub closed spec fn write_slot(self) -> Option<T> {
        self.pool@[self.write_index as int]
    }

    /// Whether slot `k` holds a resident item: its ring distance from the
    /// read cursor is below the count.
    closed spec fn is_resident_slot(self, k: int) -> bool {
        if k >= self.read_index {
            k - self.read_index < self.spec_count()
        } else {
            k + STREAM_CAPACITY - self.read_index < self.spec_count()
        }
    }

    /// Structural invariant: cursors in range, every resident slot occupied.
    pub closed spec fn wf(self) -> bool {
        &&& self.pool@.len() == STREAM_CAPACITY
        &&& self.read_index < STREAM_CAPACITY
        &&& self.write_index < STREAM_CAPACITY
        &&& forall|k: int|
            0 <= k < STREAM_CAPACITY && self.is_resident_slot(k) ==> (#[trigger] self.pool@[k])
                is Some
    }

    /// A well-formed stream never holds more than `STREAM_CAPACITY - 1`
    /// items: one slot always stays free.
    pub proof fn lemma_count_bound(self)
        requires
            self.wf(),
        ensures
            self@.len() < STREAM_CAPACITY,
    {
    }

    /// An empty stream.
    pub fn new() -> (s: Self)
        ensures
            s.wf(),
            s@ == Seq::<T>::empty(),
    {
        let mut pool: Vec<Option<T>> = Vec::new();
        let mut i: usize = 0;
        while i < STREAM_CAPACITY
            invariant
                i == pool@.len(),
                i <= STREAM_CAPACITY,
            decreases STREAM_CAPACITY - i,
        {
            pool.push(None);
            i += 1;
        }
        let s = Stream { pool, read_index: 0, write_index: 0 };
        assert(s@ =~= Seq::<T>::empty());
        s
    }

    /// Inserts `item` at the write cursor and advances it; fails with `Full`
    /// and leaves the contents unchanged when `STREAM_CAPACITY - 1` items are
    /// already resident. Never blocks.
    pub fn write(&mut self, item: T) -> (r: Result<(), StreamError>)
        requires
            old(self).wf(),
        ensures
            final(self).wf(),
            old(self)@.len() == STREAM_CAPACITY - 1 ==> r == Result::<(), StreamError>::Err(
                StreamError::Full,
            ) && final(self)@ == old(self)@,
            old(self)@.len() < STREAM_CAPACITY - 1 ==> r == Result::<(), StreamError>::Ok(())
                && final(self)@ == old(self)@.push(item),
            final(self)@ == model_write(old(self)@, item),
    {
        let next_index = (self.write_index + 1) % STREAM_CAPACITY;
        if next_index == self.read_index {
            proof {
                self.lemma_count_bound();
            }
            return Err(StreamError::Full);
        }
        let ghost pre = *self;
        self.pool[self.write_index] = Some(item);
        self.write_index = next_index;
        proof {
            assert forall|k: int| 0 <= k < STREAM_CAPACITY && self.is_resident_slot(k) implies (
            #[trigger] self.pool@[k]) is Some by {
                if k != pre.write_index as int {
                    assert(pre.is_resident_slot(k));
                    assert(pre.pool@[k] is Some);
                }
            }
            assert forall|i: int| 0 <= i < self.spec_count() implies self@[i] == pre@.push(
                item,
            )[i] by {
                assert(self.slot_of(i) == pre.slot_of(i));
                if i < pre.spec_count() {
                    assert(pre.slot_of(i) != pre.write_index as int);
                }
            }
            assert(self@ =~= pre@.push(item));
        }
        Ok(())
    }

    /// Removes and returns the oldest item, advancing the read cursor;
    /// returns `None` when the buffer is empty. Never blocks.
    pub fn read(&mut self) -> (r: Option<T>)
        requires
            old(self).wf(),
        ensures
            final(self).wf(),
            old(self)@.len() == 0 ==> r is None && final(self)@ == old(self)@,
            old(self)@.len() > 0 ==> r == Some(old(self)@[0]) && final(self)@ == old(
                self,
            )@.drop_first(),
            final(self)@ == model_read(old(self)@),
    {
        if self.read_index == self.write_index {
            return None;
        }
        let ghost pre = *self;
        assert(pre.pool@[pre.slot_of(0)] is Some);
        let slot = &mut self.pool[self.read_index];
        let item = slot.take();
        self.read_index = (self.read_index + 1) % STREAM_CAPACITY;
        proof {
            assert forall|k: int| 0 <= k < STREAM_CAPACITY && self.is_resident_slot(k) implies (
            #[trigger] self.pool@[k]) is Some by {
                assert(k != pre.read_index as int);
                assert(pre.is_resident_slot(k));
                assert(pre.pool@[k] is Some);
            }
            assert forall|i: int| 0 <= i < self.spec_count() implies self@[i]
                == pre@.drop_first()[i] by {
                assert(self.slot_of(i) == pre.slot_of(i + 1));
                assert(pre.slot_of(i + 1) != pre.read_index as int);
            }
            assert(self@ =~= pre@.drop_first());
        }
        item
    }

    /// Non-destructive emptiness check.
    pub fn has_data(&self) -> (r: bool)
        requires
            self.wf(),
        ensures
            r == (self@.len() != 0),
    {
        self.read_index != self.write_index
    }

    /// Hands out the slot the next write goes to, so a caller can fill a
    /// pre-allocated value in place and then [`Self::commit_write`] it.
    /// The resident contents stay as they were, whatever the caller stores
    /// in the slot.
    pub fn get_write_mut(&mut self) -> (r: Result<&mut Option<T>, StreamError>)
        requires
            old(self).wf(),
        ensures
            old(self)@.len() == STREAM_CAPACITY - 1 ==> r is Err && r->Err_0 == StreamError::Full
                && *old(self) == *final(self),
            old(self)@.len() < STREAM_CAPACITY - 1 ==> r is Ok && {
                &&& *r->Ok_0 == old(self).write_slot()
                &&& final(self).wf()
                &&& final(self)@ =~= old(self)@
                &&& final(self).write_slot() == *final(r->Ok_0)
            },
    {
        let next_index = (self.write_index + 1) % STREAM_CAPACITY;
        if next_index == self.read_index {
            return Err(StreamError::Full);
        }
        proof {
            assert(!self.is_resident_slot(self.write_index as int));
        }
        let slot = &mut self.pool[self.write_index];
        Ok(slot)
    }

    /// Publishes the value stored at the write cursor: advances the cursor so
    /// a subsequent [`Self::read`] sees it after the older items. Fails with
    /// `Full`, changing nothing, when no slot is free.
    pub fn commit_write(&mut self) -> (r: Result<(), StreamError>)
        requires
            old(self).wf(),
            old(self)@.len() < STREAM_CAPACITY - 1 ==> old(self).write_slot() is Some,
        ensures
            final(self).wf(),
            old(self)@.len() == STREAM_CAPACITY - 1 ==> r == Result::<(), StreamError>::Err(
                StreamError::Full,
            ) && final(self)@ == old(self)@,
            old(self)@.len() < STREAM_CAPACITY - 1 ==> r == Result::<(), StreamError>::Ok(())
                && final(self)@ == old(self)@.push(old(self).write_slot()->0),
    {
        let next_index = (self.write_index + 1) % STREAM_CAPACITY;
        if next_index == self.read_index {
            return Err(StreamError::Full);
        }
        let ghost pre = *self;
        self.write_index = next_index;
        proof {
            assert forall|k: int| 0 <= k < STREAM_CAPACITY && self.is_resident_slot(k) implies (
            #[trigger] self.pool@[k]) is Some by {
                if k != pre.write_index as int {
                    assert(pre.is_resident_slot(k));
                    assert(pre.pool@[k] is Some);
                }
            }
            assert forall|i: int| 0 <= i < self.spec_count() implies self@[i] == pre@.push(
                pre.write_slot()->0,
            )[i] by {
                assert(self.slot_of(i) == pre.slot_of(i));
            }
            assert(self@ =~= pre@.push(pre.write_slot()->0));
        }
        Ok(())
    }

    /// Borrows the slot at the read cursor without removing it; `None` when
    /// the buffer is empty.
    pub fn get_read_ref(&self) -> (r: Option<&Option<T>>)
        requires
            self.wf(),
        ensures
            self@.len() == 0 ==> r is None,
            self@.len() > 0 ==> r is Some && *r->0 == Some(self@[0]),
    {
        if self.read_index == self.write_index {
            return None;
        }
        assert(self.pool@[self.slot_of(0)] is Some);
        Some(&self.pool[self.read_index])
    }

    /// Consumes the oldest item after a [`Self::get_read_ref`]: advances the
    /// read cursor. Fails with `Empty`, changing nothing, when the buffer is
    /// empty.
    pub fn commit_read(&mut self) -> (r: Result<(), StreamError>)
        requires
            old(self).wf(),
        ensures
            final(self).wf(),
            old(self)@.len() == 0 ==> r == Result::<(), StreamError>::Err(StreamError::Empty)
                && final(self)@ == old(self)@,
            old(self)@.len() > 0 ==> r == Result::<(), StreamError>::Ok(()) && final(self)@ == old(
                self,
            )@.drop_first(),
            final(self)@ == model_read(old(self)@),
    {
        if self.read_index == self.write_index {
            return Err(StreamError::Empty);
        }
        let ghost pre = *self;
        self.read_index = (self.read_index + 1) % STREAM_CAPACITY;
        proof {
            assert forall|k: int| 0 <= k < STREAM_CAPACITY && self.is_resident_slot(k) implies (
            #[trigger] self.pool@[k]) is Some by {
                assert(pre.is_resident_slot(k));
                assert(pre.pool@[k] is Some);
            }
            assert forall|i: int| 0 <= i < self.spec_count() implies self@[i]
                == pre@.drop_first()[i] by {
                assert(self.slot_of(i) == pre.slot_of(i + 1));
            }
            assert(self@ =~= pre@.drop_first());
        }
        Ok(())
    }
}

/// Abstract effect of one non-blocking write on the contents, matching
/// [`Stream::write`]: the item is appended when the one-slot-free rule still
/// leaves room, and dropped (with a `Full` result) otherwise.
pub open spec fn model_write<T>(s: Seq<T>, item: T) -> Seq<T> {
    if s.len() < STREAM_CAPACITY - 1 {
        s.push(item)
    } else {
        s
    }
}

/// Abstract effect of one non-blocking read on the contents, matching
/// [`Stream::read`] and [`Stream::commit_read`]: the oldest item leaves,
/// and an empty stream stays empty.
pub open spec fn model_read<T>(s: Seq<T>) -> Seq<T> {
    if s.len() == 0 {
        s
    } else {
        s.drop_first()
    }
}

/// Abstract contents after writing the items of `xs`, first to last.
pub open spec fn model_write_all<T>(s: Seq<T>, xs: Seq<T>) -> Seq<T>
    decreases xs.len(),
{
    if xs.len() == 0 {
        s
    } else {
        model_write_all(model_write(s, xs[0]), xs.drop_first())
    }
}

/// FIFO round-trip law: writing the items of `xs`, first to last, into a
/// stream holding `s` makes the contents exactly `s + xs`, as long as the
/// one-slot-free rule is respected throughout. Together with the contract of
/// [`Stream::read`], which always returns the first element of the contents
/// and drops nothing else, no item is ever lost, duplicated or reordered.
pub proof fn lemma_fifo_round_trip<T>(s: Seq<T>, xs: Seq<T>)
    requires
        s.len() + xs.len() <= STREAM_CAPACITY - 1,
    ensures
        model_write_all(s, xs) == s + xs,
    decreases xs.len(),
{
    if xs.len() == 0 {
        assert(s + xs =~= s);
    } else {
        lemma_fifo_round_trip(s.push(xs[0]), xs.drop_first());
        assert(s.push(xs[0]) + xs.drop_first() =~= s + xs);
    }
}

/// Drain law, the read half of the FIFO round trip: after `k` reads, a
/// stream that held `s` holds `s.skip(k)`, so the next read returns `s[k]`
/// — the `k`-th committed item — and one more read leaves `s.skip(k + 1)`.
/// By induction from zero, `n` successive reads of a stream holding
/// `x1 .. xn` return exactly `x1 .. xn` in that order and leave it empty,
/// and the next read returns `None`.
pub proof fn lemma_reads_in_order<T>(s: Seq<T>, k: int)
    requires
        0 <= k < s.len(),
    ensures
        s.skip(k)[0] == s[k],
        model_read(s.skip(k)) == s.skip(k + 1),
{
    assert(s.skip(k).drop_first() =~= s.skip(k + 1));
}

} // verus!
