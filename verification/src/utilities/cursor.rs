//! A read-only cursor into a slice, used when deserialising variable-length items in the
//! middle of a larger byte sequence.
use vstd::prelude::*;
use vstd::slice::slice_subrange;

verus! {

broadcast use vstd::slice::group_slice_axioms;

/// Calls `<&[T; N]>::try_from` on a slice: it gives the same elements as an array reference
/// when the slice has exactly `N` elements, and fails otherwise.
#[verifier::external_body]
fn slice_as_array<'a, T, const N: usize>(s: &'a [T]) -> (r: Option<&'a [T; N]>)
    ensures
        r is Some <==> s@.len() == N,
        r matches Some(a) ==> a@ == s@,
{
    s.try_into().ok()
}

/// An immutable cursor into a borrowed slice of elements.
pub struct Cursor<'a, T> {
    backing: &'a [T],
    pos: usize,
}

impl<'a, T> Cursor<'a, T> {
    /// The elements the cursor walks over.
    pub closed spec fn items(&self) -> Seq<T> {
        self.backing@
    }

    /// The zero-indexed position of the cursor head.
    pub closed spec fn head(&self) -> int {
        self.pos as int
    }

    /// The head never leaves `0..=items().len()`.
    pub open spec fn wf(&self) -> bool {
        0 <= self.head() <= self.items().len() <= usize::MAX
    }

    /// The elements from the head to the end.
    pub open spec fn rest(&self) -> Seq<T> {
        self.items().subrange(self.head(), self.items().len() as int)
    }

    /// Create a new cursor at the start of `backing`.
    pub fn new(backing: &'a [T]) -> (c: Self)
        ensures
            c.wf(),
            c.items() == backing@,
            c.head() == 0,
    {
        proof {
            assert(backing@.len() == backing.len());
        }
        Cursor { backing, pos: 0 }
    }

    /// Moves the head forwards by `offset`: `true` if the move stayed in bounds, `false` (and no
    /// move) otherwise.
    pub fn move_forwards(&mut self, offset: usize) -> (moved: bool)
        requires
            old(self).wf(),
        ensures
            final(self).wf(),
            final(self).items() == old(self).items(),
            moved == (old(self).head() + offset <= old(self).items().len()),
            final(self).head() == if moved { old(self).head() + offset } else { old(self).head() },
    {
        let len = self.backing.len();
        let new_pos = match self.pos.checked_add(offset) {
            Some(p) => p,
            None => return false,
        };
        if new_pos > len {
            return false;
        }
        self.pos = new_pos;
        true
    }

    /// Moves the head backwards by `offset`: `true` if the move stayed in bounds, `false` (and no
    /// move) otherwise.
    pub fn move_backwards(&mut self, offset: usize) -> (moved: bool)
        requires
            old(self).wf(),
        ensures
            final(self).wf(),
            final(self).items() == old(self).items(),
            moved == (offset <= old(self).head()),
            final(self).head() == if moved { old(self).head() - offset } else { old(self).head() },
    {
        let new_pos = match self.pos.checked_sub(offset) {
            Some(p) => p,
            None => return false,
        };
        self.pos = new_pos;
        true
    }

    /// Reads `n` elements from the head and moves the head past them; `None` (and no move) if
    /// fewer than `n` remain.
    pub fn read(&mut self, n: usize) -> (r: Option<&'a [T]>)
        requires
            old(self).wf(),
        ensures
            final(self).wf(),
            final(self).items() == old(self).items(),
            r is Some <==> old(self).head() + n <= old(self).items().len(),
            r matches Some(s) ==> s@ == old(self).items().subrange(
                old(self).head(),
                old(self).head() + n,
            ) && final(self).head() == old(self).head() + n,
            r is None ==> final(self).head() == old(self).head(),
    {
        let len = self.backing.len();
        let start = self.pos;
        let end = match start.checked_add(n) {
            Some(e) => e,
            None => return None,
        };
        if end > len {
            return None;
        }
        self.pos = end;
        Some(slice_subrange(self.backing, start, end))
    }

    /// Reads exactly `N` elements from the head as an array and moves the head past them;
    /// `None` (and no move) if fewer than `N` remain.
    pub fn read_exact<const N: usize>(&mut self) -> (r: Option<&'a [T; N]>)
        requires
            old(self).wf(),
        ensures
            final(self).wf(),
            final(self).items() == old(self).items(),
            r is Some <==> old(self).head() + N <= old(self).items().len(),
            r matches Some(a) ==> a@ == old(self).items().subrange(
                old(self).head(),
                old(self).head() + N,
            ) && final(self).head() == old(self).head() + N,
            r is None ==> final(self).head() == old(self).head(),
    {
        match self.read(N) {
            Some(s) => slice_as_array(s),
            None => None,
        }
    }

    /// Looks at exactly `N` elements from the head as an array without moving it; `None` if
    /// fewer than `N` remain.
    pub fn peek_exact<const N: usize>(&self) -> (r: Option<&'a [T; N]>)
        requires
            self.wf(),
        ensures
            r is Some <==> self.head() + N <= self.items().len(),
            r matches Some(a) ==> a@ == self.items().subrange(self.head(), self.head() + N),
    {
        match self.peek(N) {
            Some(s) => slice_as_array(s),
            None => None,
        }
    }

    /// Looks at `n` elements from the head without moving it; `None` if fewer than `n` remain.
    pub fn peek(&self, n: usize) -> (r: Option<&'a [T]>)
        requires
            self.wf(),
        ensures
            r is Some <==> self.head() + n <= self.items().len(),
            r matches Some(s) ==> s@ == self.items().subrange(self.head(), self.head() + n),
    {
        let len = self.backing.len();
        let start = self.pos;
        let end = match start.checked_add(n) {
            Some(e) => e,
            None => return None,
        };
        if end > len {
            return None;
        }
        Some(slice_subrange(self.backing, start, end))
    }

    /// Reads every remaining element and finishes the cursor.
    pub fn read_remaining(&mut self) -> (r: &'a [T])
        requires
            old(self).wf(),
        ensures
            final(self).wf(),
            final(self).items() == old(self).items(),
            r@ == old(self).rest(),
            final(self).head() == old(self).items().len(),
    {
        let len = self.backing.len();
        if self.pos >= len {
            slice_subrange(self.backing, len, len)
        } else {
            let backup = self.pos;
            self.pos = len;
            slice_subrange(self.backing, backup, len)
        }
    }

    /// Every remaining element, without moving the head.
    pub fn peek_remaining(&self) -> (r: &'a [T])
        requires
            self.wf(),
        ensures
            r@ == self.rest(),
    {
        self.as_ref()
    }

    /// The remaining elements: the same as [`Cursor::peek_remaining`].
    pub fn as_ref(&self) -> (r: &'a [T])
        requires
            self.wf(),
        ensures
            r@ == self.rest(),
    {
        let len = self.backing.len();
        if self.pos >= len {
            slice_subrange(self.backing, len, len)
        } else {
            slice_subrange(self.backing, self.pos, len)
        }
    }

    /// The current zero-indexed position of the head, always in `0..=len`.
    pub fn pos(&self) -> (p: usize)
        requires
            self.wf(),
        ensures
            p == self.head(),
            p <= self.items().len(),
    {
        self.pos
    }

    /// The number of elements after the head.
    pub fn items_remaining(&self) -> (n: usize)
        requires
            self.wf(),
        ensures
            n == self.items().len() - self.head(),
    {
        self.backing.len() - self.pos
    }

    /// Puts the head at `new`, or at the end if `new` is past it.
    pub fn set_pos(&mut self, new: usize)
        requires
            old(self).wf(),
        ensures
            final(self).wf(),
            final(self).items() == old(self).items(),
            final(self).head() == if new <= old(self).items().len() {
                new as int
            } else {
                old(self).items().len() as int
            },
    {
        let len = self.backing.len();
        self.pos = if new < len { new } else { len };
    }

    /// Whether the head is at the end.
    pub fn is_finished(&self) -> (b: bool)
        requires
            self.wf(),
        ensures
            b == (self.head() == self.items().len()),
    {
        self.pos >= self.backing.len()
    }

    /// Yields the element at the head and moves past it; `None` at the end.
    pub fn next(&mut self) -> (r: Option<&'a T>)
        requires
            old(self).wf(),
        ensures
            final(self).wf(),
            final(self).items() == old(self).items(),
            r is Some <==> old(self).head() < old(self).items().len(),
            r matches Some(x) ==> *x == old(self).items()[old(self).head()]
                && final(self).head() == old(self).head() + 1,
            r is None ==> final(self).head() == old(self).head(),
    {
        if self.pos >= self.backing.len() {
            return None;
        }
        self.pos = self.pos + 1;
        Some(&self.backing[self.pos - 1])
    }
}

} // verus!
