//! A single-producer, multi-consumer event channel.
//!
//! The channel owns a ring of events and a cursor for every registered
//! reader. An event is retained until every live reader has read past it:
//! before each push the channel compacts, dropping events older than the
//! smallest live cursor, or everything when no live reader remains. Events
//! pushed while no reader exists are discarded.

use vstd::prelude::*;

verus! {

/// A reader's claim on an [`EventChannel`]. Release it with
/// [`EventChannel::unregister`] so the channel can drop events the reader
/// would otherwise keep alive.
pub struct ReaderHandle {
    index: usize,
}

impl ReaderHandle {
    pub closed spec fn spec_index(self) -> int {
        self.index as int
    }

    pub fn index(&self) -> (r: usize)
        ensures
            r == self.spec_index(),
    {
        self.index
    }
}

struct ReaderSlot {
    live: bool,
    cursor: crate::ring_vec::RingCursor,
}

pub struct EventChannel<E> {
    readers: Vec<ReaderSlot>,
    events: crate::ring_vec::RingVec<E>,
}

impl<E> EventChannel<E> {
    /// The events currently retained, oldest first.
    pub closed spec fn retained(&self) -> Seq<E> {
        self.events.view()
    }

    pub closed spec fn reader_count(&self) -> int {
        self.readers@.len() as int
    }

    pub closed spec fn reader_live(&self, i: int) -> bool {
        0 <= i < self.readers@.len() && self.readers@[i].live
    }

    pub closed spec fn cursor_of(&self, i: int) -> int {
        self.readers@[i].cursor.spec_value() as int
    }

    /// The events reader `i` has not read yet, oldest first.
    pub open spec fn pending(&self, i: int) -> Seq<E> {
        self.retained().skip(self.cursor_of(i) - self.stream_front())
    }

    pub closed spec fn stream_front(&self) -> int {
        self.events.front_position()
    }

    pub closed spec fn stream_end(&self) -> int {
        self.events.end_position()
    }

    /// Whether `c` is the least cursor among live readers.
    pub open spec fn is_min_live_cursor(&self, c: int) -> bool {
        &&& exists|i: int| #[trigger] self.reader_live(i) && self.cursor_of(i) == c
        &&& forall|i: int| #[trigger] self.reader_live(i) ==> c <= self.cursor_of(i)
    }

    pub closed spec fn wf(&self) -> bool {
        &&& self.events.wf()
        &&& forall|i: int|
            #[trigger] self.reader_live(i) ==> self.events.front_position()
                <= self.readers@[i].cursor.spec_value() <= self.events.end_position()
    }

    pub fn new() -> (r: Self)
        ensures
            r.wf(),
            r.retained() == Seq::<E>::empty(),
            r.reader_count() == 0,
            r.stream_front() == 0,
            r.stream_end() == 0,
    {
        EventChannel { readers: Vec::new(), events: crate::ring_vec::RingVec::new() }
    }

    /// A live reader's index is a valid slot.
    pub proof fn lemma_reader_live_in_range(&self, i: int)
        requires
            self.reader_live(i),
        ensures
            0 <= i < self.reader_count(),
    {
    }

    /// How many events the channel currently retains.
    pub fn retained_len(&self) -> (r: usize)
        ensures
            r == self.retained().len(),
    {
        self.events.len()
    }

    /// Create a reader whose cursor starts at the current write head, so
    /// it sees only events pushed after registration. A slot freed by
    /// [`Self::unregister`] is reused before the slot table grows.
    pub fn register(&mut self) -> (r: ReaderHandle)
        requires
            old(self).wf(),
        ensures
            final(self).wf(),
            0 <= r.spec_index() < final(self).reader_count(),
            !old(self).reader_live(r.spec_index()),
            final(self).reader_live(r.spec_index()),
            final(self).pending(r.spec_index()) == Seq::<E>::empty(),
            final(self).retained() == old(self).retained(),
            final(self).stream_front() == old(self).stream_front(),
            final(self).stream_end() == old(self).stream_end(),
            old(self).reader_count() <= final(self).reader_count() <= old(self).reader_count()
                + 1,
            forall|i: int|
                0 <= i < old(self).reader_count() && i != r.spec_index()
                    ==> #[trigger] final(self).reader_live(i) == old(self).reader_live(i)
                    && final(self).cursor_of(i) == old(self).cursor_of(i),
    {
        let cursor = self.events.end_cursor();
        let mut index = self.readers.len();
        let mut k: usize = 0;
        while k < self.readers.len()
            invariant
                *self == *old(self),
                0 <= k <= self.readers@.len(),
                index == self.readers@.len() || (0 <= index < k && !self.readers@[
                    index as int].live),
            decreases self.readers@.len() - k,
        {
            if index == self.readers.len() && !self.readers[k].live {
                index = k;
            }
            k = k + 1;
        }
        if index < self.readers.len() {
            let slot = &mut self.readers[index];
            slot.live = true;
            slot.cursor = cursor;
        } else {
            self.readers.push(ReaderSlot { live: true, cursor });
        }
        assert(self.pending(index as int) =~= Seq::<E>::empty());
        proof {
            assert forall|i: int| self.reader_live(i) implies self.events.front_position()
                <= self.readers@[i].cursor.spec_value() <= self.events.end_position() by {
                if i != index as int {
                    assert(old(self).reader_live(i));
                }
            }
        }
        ReaderHandle { index }
    }

    /// Release a reader; its cursor no longer holds events back.
    pub fn unregister(&mut self, reader: ReaderHandle)
        requires
            old(self).wf(),
            0 <= reader.spec_index() < old(self).reader_count(),
        ensures
            final(self).wf(),
            !final(self).reader_live(reader.spec_index()),
            final(self).reader_count() == old(self).reader_count(),
            final(self).retained() == old(self).retained(),
            final(self).stream_front() == old(self).stream_front(),
            final(self).stream_end() == old(self).stream_end(),
            forall|i: int|
                0 <= i < old(self).reader_count() && i != reader.spec_index()
                    ==> #[trigger] final(self).reader_live(i) == old(self).reader_live(i)
                    && final(self).cursor_of(i) == old(self).cursor_of(i),
    {
        let slot = &mut self.readers[reader.index];
        slot.live = false;
        proof {
            assert forall|i: int| self.reader_live(i) implies self.events.front_position()
                <= self.readers@[i].cursor.spec_value() <= self.events.end_position() by {
                if 0 <= i < old(self).readers@.len() && old(self).readers@[i].live {
                    assert(old(self).reader_live(i));
                }
            }
        }
    }

    /// Push an event. The channel first compacts: events older than the
    /// smallest live cursor are dropped, and everything is dropped when no
    /// live reader remains, in which case the event itself is discarded.
    pub fn push(&mut self, event: E)
        requires
            old(self).wf(),
            old(self).stream_end() < u64::MAX,
        ensures
            final(self).wf(),
            final(self).reader_count() == old(self).reader_count(),
            forall|i: int|
                0 <= i < old(self).reader_count() ==> #[trigger] final(self).reader_live(i) == old(
                    self,
                ).reader_live(i) && final(self).cursor_of(i) == old(self).cursor_of(i),
            (exists|i: int| old(self).reader_live(i)) ==> {
                &&& forall|i: int|
                    #[trigger] old(self).reader_live(i) ==> final(self).pending(i) == old(self).pending(
                        i,
                    ).push(event)
                &&& final(self).retained().len() <= old(self).retained().len() + 1
                &&& final(self).retained().last() == event
            },
            !(exists|i: int| old(self).reader_live(i)) ==> final(self).retained() == Seq::<E>::empty(),
            old(self).stream_end() <= final(self).stream_end() <= old(self).stream_end() + 1,
            final(self).stream_front() >= old(self).stream_front(),
            (exists|i: int| old(self).reader_live(i)) ==> old(self).is_min_live_cursor(
                final(self).stream_front(),
            ),
    {
        let min = self.min_live_cursor();
        match min {
            None => {
                self.events.clear();
                proof {
                    assert forall|i: int| !self.reader_live(i) by {
                        if self.reader_live(i) {
                            assert(old(self).reader_live(i));
                        }
                    }
                }
            },
            Some(first) => {
                self.events.remove_to_cursor(first);
                assert forall|i: int| old(self).reader_live(i) implies self.pending(i) == old(
                    self,
                ).pending(i) by {
                    assert(self.pending(i) =~= old(self).pending(i));
                }
                let ghost before = *self;
                self.events.push_back(event);
                assert forall|i: int| old(self).reader_live(i) implies self.pending(i) == old(
                    self,
                ).pending(i).push(event) by {
                    assert(self.pending(i) =~= before.pending(i).push(event));
                }
                proof {
                    assert forall|i: int| self.reader_live(i) implies self.events.front_position()
                        <= self.readers@[i].cursor.spec_value() <= self.events.end_position() by {
                        assert(old(self).reader_live(i));
                    }
                }
            },
        }
    }

    /// The smallest cursor among live readers, if any reader is live.
    fn min_live_cursor(&self) -> (r: Option<crate::ring_vec::RingCursor>)
        requires
            self.wf(),
        ensures
            r is None <==> !(exists|i: int| self.reader_live(i)),
            r is Some ==> {
                &&& exists|i: int|
                    self.reader_live(i) && r->Some_0.spec_value() == self.cursor_of(i)
                &&& forall|i: int|
                    #[trigger] self.reader_live(i) ==> r->Some_0.spec_value() <= self.cursor_of(i)
            },
    {
        let mut first: Option<crate::ring_vec::RingCursor> = None;
        let mut i: usize = 0;
        while i < self.readers.len()
            invariant
                0 <= i <= self.readers@.len(),
                first is None <==> !(exists|j: int| j < i && self.reader_live(j)),
                first is Some ==> {
                    &&& exists|j: int|
                        j < i && self.reader_live(j) && first->Some_0.spec_value()
                            == self.cursor_of(j)
                    &&& forall|j: int|
                        j < i && #[trigger] self.reader_live(j) ==> first->Some_0.spec_value()
                            <= self.cursor_of(j)
                },
            decreases self.readers@.len() - i,
        {
            if self.readers[i].live {
                let cursor = self.readers[i].cursor;
                assert(self.reader_live(i as int) && cursor.spec_value() == self.cursor_of(
                    i as int,
                ));
                match &first {
                    None => {
                        first = Some(cursor);
                    },
                    Some(f) => {
                        if cursor.value() < f.value() {
                            first = Some(cursor);
                        }
                    },
                }
            }
            i = i + 1;
        }
        first
    }

    /// Whether the reader has unread events; its cursor moves to the head
    /// either way.
    pub fn read_any(&mut self, reader: &ReaderHandle) -> (r: bool)
        requires
            old(self).wf(),
            old(self).reader_live(reader.spec_index()),
        ensures
            final(self).wf(),
            r == (old(self).pending(reader.spec_index()).len() > 0),
            final(self).pending(reader.spec_index()) == Seq::<E>::empty(),
            final(self).retained() == old(self).retained(),
            final(self).stream_front() == old(self).stream_front(),
            final(self).stream_end() == old(self).stream_end(),
            final(self).reader_count() == old(self).reader_count(),
            forall|i: int|
                0 <= i < old(self).reader_count() && i != reader.spec_index()
                    ==> #[trigger] final(self).reader_live(i) == old(self).reader_live(i)
                    && final(self).cursor_of(i) == old(self).cursor_of(i),
            final(self).reader_live(reader.spec_index()),
    {
        let end = self.events.end_cursor();
        let slot = &mut self.readers[reader.index];
        let any = slot.cursor.value() < end.value();
        slot.cursor = end;
        assert(self.pending(reader.spec_index()) =~= Seq::<E>::empty());
        proof {
            assert forall|i: int| self.reader_live(i) implies self.events.front_position()
                <= self.readers@[i].cursor.spec_value() <= self.events.end_position() by {
                if 0 <= i < old(self).readers@.len() && old(self).readers@[i].live {
                    assert(old(self).reader_live(i));
                }
            }
        }
        any
    }
}

impl<E: Copy> EventChannel<E> {
    /// The reader's unread events, oldest first; its cursor moves to the
    /// head, so a second read with no intervening push returns nothing.
    pub fn read(&mut self, reader: &ReaderHandle) -> (r: Vec<E>)
        requires
            old(self).wf(),
            old(self).reader_live(reader.spec_index()),
        ensures
            final(self).wf(),
            r@ == old(self).pending(reader.spec_index()),
            final(self).pending(reader.spec_index()) == Seq::<E>::empty(),
            final(self).retained() == old(self).retained(),
            final(self).stream_front() == old(self).stream_front(),
            final(self).stream_end() == old(self).stream_end(),
            final(self).reader_count() == old(self).reader_count(),
            forall|i: int|
                0 <= i < old(self).reader_count() && i != reader.spec_index()
                    ==> #[trigger] final(self).reader_live(i) == old(self).reader_live(i)
                    && final(self).cursor_of(i) == old(self).cursor_of(i),
            final(self).reader_live(reader.spec_index()),
    {
        let cursor = self.readers[reader.index].cursor;
        let out = match self.events.iter_from_cursor(cursor) {
            None => Vec::new(),
            Some(v) => v,
        };
        let end = self.events.end_cursor();
        let slot = &mut self.readers[reader.index];
        slot.cursor = end;
        assert(self.pending(reader.spec_index()) =~= Seq::<E>::empty());
        proof {
            assert forall|i: int| self.reader_live(i) implies self.events.front_position()
                <= self.readers@[i].cursor.spec_value() <= self.events.end_position() by {
                if 0 <= i < old(self).readers@.len() && old(self).readers@[i].live {
                    assert(old(self).reader_live(i));
                }
            }
        }
        out
    }
}

} // verus!
