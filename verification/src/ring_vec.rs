//! A queue with stable cursors.
//!
//! Elements enter at the back and leave at the front. The structure counts
//! every element that ever left through `pop_counter`, so a [`RingCursor`]
//! (a position in the infinite stream of pushed elements) keeps its meaning
//! while the front moves. Event channels use the cursors to track how far
//! each reader has read.

use vstd::prelude::*;

verus! {

/// A position in the stream of elements pushed into one [`RingVec`]:
/// the number of elements pushed before the one it points at.
#[derive(Copy, Clone, PartialEq, Eq, Structural, Debug)]
pub struct RingCursor {
    cursor: u64,
}

impl RingCursor {
    pub closed spec fn spec_value(self) -> u64 {
        self.cursor
    }

    /// The position as a plain number.
    pub fn value(&self) -> (r: u64)
        ensures
            r == self.spec_value(),
    {
        self.cursor
    }
}

pub struct RingVec<T> {
    buf: Vec<T>,
    pop_counter: u64,
}

impl<T> RingVec<T> {
    /// The live elements, front first.
    pub closed spec fn view(&self) -> Seq<T> {
        self.buf@
    }

    /// How many elements have left through the front so far.
    pub closed spec fn pop_count(&self) -> u64 {
        self.pop_counter
    }

    /// The stream position of the front element.
    pub open spec fn front_position(&self) -> int {
        self.pop_count() as int
    }

    /// The stream position one past the back element.
    pub open spec fn end_position(&self) -> int {
        self.pop_count() + self.view().len()
    }

    pub closed spec fn wf(&self) -> bool {
        self.pop_counter + self.buf@.len() <= u64::MAX
    }

    pub fn new() -> (r: Self)
        ensures
            r.wf(),
            r.view() == Seq::<T>::empty(),
            r.pop_count() == 0,
    {
        RingVec { buf: Vec::new(), pop_counter: 0 }
    }

    pub fn len(&self) -> (r: usize)
        ensures
            r == self.view().len(),
    {
        self.buf.len()
    }

    /// Append an element at the back.
    pub fn push_back(&mut self, value: T)
        requires
            old(self).wf(),
            old(self).end_position() < u64::MAX,
        ensures
            final(self).wf(),
            final(self).view() == old(self).view().push(value),
            final(self).pop_count() == old(self).pop_count(),
    {
        self.buf.push(value);
    }

    /// Remove and return the front element, if any.
    pub fn pop_front(&mut self) -> (r: Option<T>)
        requires
            old(self).wf(),
        ensures
            final(self).wf(),
            old(self).view().len() == 0 ==> {
                &&& r is None
                &&& final(self).view() == old(self).view()
                &&& final(self).pop_count() == old(self).pop_count()
            },
            old(self).view().len() > 0 ==> {
                &&& r == Some(old(self).view()[0])
                &&& final(self).view() == old(self).view().drop_first()
                &&& final(self).pop_count() == old(self).pop_count() + 1
            },
    {
        if self.buf.len() == 0 {
            None
        } else {
            let value = self.buf.remove(0);
            self.pop_counter = self.pop_counter + 1;
            Some(value)
        }
    }

    /// The cursor one past the last element pushed so far.
    pub fn end_cursor(&self) -> (r: RingCursor)
        requires
            self.wf(),
        ensures
            r.spec_value() == self.end_position(),
    {
        RingCursor { cursor: self.pop_counter + self.buf.len() as u64 }
    }

    /// Where a cursor falls among the live elements; `None` if it points
    /// before the current front.
    fn cursor_to_index(&self, cursor: RingCursor) -> (r: Option<u64>)
        ensures
            cursor.spec_value() < self.pop_count() ==> r is None,
            cursor.spec_value() >= self.pop_count() ==> r == Some(
                (cursor.spec_value() - self.pop_count()) as u64,
            ),
    {
        if cursor.cursor < self.pop_counter {
            None
        } else {
            Some(cursor.cursor - self.pop_counter)
        }
    }

    fn get_by_index(&self, index: u64) -> (r: Option<&T>)
        ensures
            index < self.view().len() ==> r == Some(&self.view()[index as int]),
            index >= self.view().len() ==> r is None,
    {
        if index >= self.buf.len() as u64 {
            None
        } else {
            Some(&self.buf[index as usize])
        }
    }

    /// The element a cursor points at, if it is still retained.
    pub fn get_by_cursor(&self, cursor: RingCursor) -> (r: Option<&T>)
        ensures
            self.front_position() <= cursor.spec_value() < self.end_position() ==> r == Some(
                &self.view()[cursor.spec_value() - self.pop_count()],
            ),
            !(self.front_position() <= cursor.spec_value() < self.end_position()) ==> r is None,
    {
        match self.cursor_to_index(cursor) {
            None => None,
            Some(index) => self.get_by_index(index),
        }
    }

    /// Remove every element before the given cursor. A cursor before the
    /// front removes nothing; one past the back removes everything.
    pub fn remove_to_cursor(&mut self, to_cursor: RingCursor)
        requires
            old(self).wf(),
        ensures
            final(self).wf(),
            final(self).view() == old(self).view().skip(final(self).removed_below(*old(self), to_cursor)),
            final(self).pop_count() == old(self).pop_count() + final(self).removed_below(
                *old(self),
                to_cursor,
            ),
    {
        if let Some(index) = self.cursor_to_index(to_cursor) {
            self.remove_to_index(index);
        }
    }

    /// How many elements `remove_to_cursor` removes: the retained elements
    /// before the cursor.
    pub open spec fn removed_below(&self, old_self: Self, to_cursor: RingCursor) -> int {
        if to_cursor.spec_value() < old_self.front_position() {
            0
        } else if to_cursor.spec_value() > old_self.end_position() {
            old_self.view().len() as int
        } else {
            to_cursor.spec_value() - old_self.front_position()
        }
    }

    /// Remove every retained element.
    pub fn clear(&mut self)
        requires
            old(self).wf(),
        ensures
            final(self).wf(),
            final(self).view() == Seq::<T>::empty(),
            final(self).pop_count() == old(self).pop_count() + old(self).view().len(),
    {
        let len = self.buf.len() as u64;
        self.remove_to_index(len);
        assert(self.view() =~= Seq::<T>::empty());
    }

    fn remove_to_index(&mut self, to_index: u64)
        requires
            old(self).wf(),
        ensures
            final(self).wf(),
            final(self).view() == old(self).view().skip(
                vstd::math::min(to_index as int, old(self).view().len() as int),
            ),
            final(self).pop_count() == old(self).pop_count() + vstd::math::min(
                to_index as int,
                old(self).view().len() as int,
            ),
    {
        let len = self.buf.len() as u64;
        let to_index = if to_index < len {
            to_index
        } else {
            len
        };
        let ghost initial = self.buf@;
        let mut i: u64 = 0;
        while i < to_index
            invariant
                i <= to_index <= initial.len(),
                self.buf@ == initial.skip(i as int),
                self.pop_counter == old(self).pop_counter + i,
                old(self).pop_counter + initial.len() <= u64::MAX,
            decreases to_index - i,
        {
            let _ = self.buf.remove(0);
            self.pop_counter = self.pop_counter + 1;
            i = i + 1;
        }
    }
}

impl<T: Copy> RingVec<T> {
    /// Every retained element from the given cursor to the back, front
    /// first; `None` if the cursor points before the current front.
    pub fn iter_from_cursor(&self, from_cursor: RingCursor) -> (r: Option<Vec<T>>)
        ensures
            from_cursor.spec_value() < self.front_position() ==> r is None,
            from_cursor.spec_value() >= self.front_position() ==> (r matches Some(v) && v@
                == self.view().skip(
                vstd::math::min(
                    from_cursor.spec_value() - self.front_position(),
                    self.view().len() as int,
                ),
            )),
    {
        match self.cursor_to_index(from_cursor) {
            None => None,
            Some(start) => {
                let mut out: Vec<T> = Vec::new();
                let len = self.buf.len();
                let start: usize = if start < len as u64 {
                    start as usize
                } else {
                    len
                };
                let mut i: usize = start;
                while i < len
                    invariant
                        start <= i <= len,
                        len == self.buf@.len(),
                        out@ == self.buf@.subrange(start as int, i as int),
                    decreases len - i,
                {
                    out.push(self.buf[i]);
                    i = i + 1;
                    assert(out@ =~= self.buf@.subrange(start as int, i as int));
                }
                assert(out@ =~= self.view().skip(start as int));
                Some(out)
            },
        }
    }
}

} // verus!
