//! A read-only cursor into bytes.
use vstd::prelude::*;
use vstd::slice::slice_subrange;

verus! {

broadcast use vstd::slice::group_slice_axioms;

/// An immutable cursor into borrowed bytes.
pub struct Cursor<'a> {
    backing: &'a [u8],
    pos: usize,
}

impl<'a> Cursor<'a> {
    /// The bytes the cursor walks over.
    pub closed spec fn items(&self) -> Seq<u8> {
        self.backing@
    }

    /// The position of the head.
    pub closed spec fn head(&self) -> int {
        self.pos as int
    }

    /// The head never leaves `0..=items().len()`.
    pub open spec fn wf(&self) -> bool {
        0 <= self.head() <= self.items().len() <= usize::MAX
    }

    /// The bytes from the head on.
    pub open spec fn rest(&self) -> Seq<u8> {
        self.items().subrange(self.head(), self.items().len() as int)
    }

    /// A cursor at the start of `backing`.
    pub fn new(backing: &'a [u8]) -> (c: Self)
        ensures
            c.wf(),
            c.items() == backing@,
            c.head() == 0,
    {
        let len = backing.len();
        Cursor { backing, pos: 0 }
    }

    /// Moves the head forwards by `offset` if the new position is strictly inside the bytes;
    /// returns whether it moved.
    pub fn seek(&mut self, offset: usize) -> (moved: bool)
        requires
            old(self).wf(),
        ensures
            final(self).wf(),
            final(self).items() == old(self).items(),
            moved == (old(self).head() + offset < old(self).items().len()),
            final(self).head() == if moved { old(self).head() + offset } else { old(self).head() },
    {
        let len = self.backing.len();
        let new_pos = match self.pos.checked_add(offset) {
            Some(p) => p,
            None => return false,
        };
        if new_pos < len {
            self.pos = new_pos;
            true
        } else {
            false
        }
    }

    /// Moves the head backwards by `offset` if it stays at or after the start; returns whether
    /// it moved.
    pub fn seek_backwards(&mut self, offset: usize) -> (moved: bool)
        requires
            old(self).wf(),
        ensures
            final(self).wf(),
            final(self).items() == old(self).items(),
            moved == (offset <= old(self).head()),
            final(self).head() == if moved { old(self).head() - offset } else { old(self).head() },
    {
        let new_pos = match self.pos.checked_sub(offset) {
            Some(p) => p,
            None => return false,
        };
        self.pos = new_pos;
        true
    }

    /// Reads `n` bytes from the head and moves past them; `None` (and no move) if fewer remain.
    pub fn read(&mut self, n: usize) -> (r: Option<&'a [u8]>)
        requires
            old(self).wf(),
        ensures
            final(self).wf(),
            final(self).items() == old(self).items(),
            r is Some <==> old(self).head() + n <= old(self).items().len(),
            r matches Some(s) ==> s@ == old(self).items().subrange(
                old(self).head(),
                old(self).head() + n,
            ) && final(self).head() == old(self).head() + n,
            r is None ==> final(self).head() == old(self).head(),
    {
        let len = self.backing.len();
        let start = self.pos;
        let end = match start.checked_add(n) {
            Some(e) => e,
            None => return None,
        };
        if end > len {
            return None;
        }
        self.pos = end;
        Some(slice_subrange(self.backing, start, end))
    }

    /// Looks at the bytes from the head up to and including position `head + n`, without
    /// moving; `None` if `head + n` is past the end. When `head + n` overflows or is exactly
    /// the end, the slice cannot be taken, so those positions are left out.
    pub fn peek(&mut self, n: usize) -> (r: Option<&'a [u8]>)
        requires
            old(self).wf(),
            old(self).head() + n <= usize::MAX,
            old(self).head() + n != old(self).items().len(),
        ensures
            *final(self) == *old(self),
            r is Some <==> old(self).head() + n < old(self).items().len(),
            r matches Some(s) ==> s@ == old(self).items().subrange(
                old(self).head(),
                old(self).head() + n + 1,
            ),
    {
        let len = self.backing.len();
        let start = self.pos;
        let end = start + n;
        if end > len {
            return None;
        }
        Some(slice_subrange(self.backing, start, end + 1))
    }

    /// The position of the head.
    pub fn position(&self) -> (p: usize)
        requires
            self.wf(),
        ensures
            p == self.head(),
    {
        self.pos
    }
}

} // verus!
