use vstd::prelude::*;

verus! {

/// The byte that ends a C string, and that fills unused storage.
pub const NUL: u8 = 0;

/// Writes to the provided buffer, truncating if it runs out of bytes.
///
/// The writer holds the part of the region that is still free. Every write
/// fills the front of that part and shrinks the view past the bytes copied.
///
/// The contracts speak of two things: of `bytes@`, the free part as it is at
/// the moment, and of `final(bytes)@`, what that part holds once the writer
/// has let go of it. What a write copies is settled at once; the rest is
/// whatever the writes that follow make of the part that is left.
pub struct BytesWriter<'a> {
    pub bytes: &'a mut [u8],
}

/// How many bytes of a fragment of `len` bytes fit into `room` free bytes.
pub open spec fn fitting(len: nat, room: nat) -> nat {
    if len <= room {
        len
    } else {
        room
    }
}

impl<'a> BytesWriter<'a> {
    /// The number of bytes that can still be written.
    pub open spec fn room(self) -> nat {
        self.bytes@.len()
    }

    /// A writer over the whole of `bytes`, none of it written yet.
    #[must_use]
    pub fn new(bytes: &'a mut [u8]) -> (writer: Self)
        ensures
            writer.bytes@ == old(bytes)@,
            final(writer.bytes)@ == final(bytes)@,
    {
        Self { bytes }
    }

    /// How many more bytes the writer takes before it starts to drop them.
    pub fn remaining(&self) -> (room: usize)
        ensures
            room == self.room(),
    {
        self.bytes.len()
    }

    /// Hands out the first `len` free bytes for the caller to fill, and moves
    /// the writer past them: the region ends up holding what the caller makes
    /// of those bytes, followed by what becomes of the part that is left.
    pub(crate) fn claim(&mut self, len: usize) -> (head: &'a mut [u8])
        requires
            len <= old(self).room(),
        ensures
            head@ == old(self).bytes@.take(len as int),
            final(self).bytes@ == old(self).bytes@.skip(len as int),
            final(old(self).bytes)@ == final(head)@ + final(final(self).bytes)@,
    {
        let mut region: &mut [u8] = &mut [];
        core::mem::swap(&mut self.bytes, &mut region);
        let (head, tail) = region.split_at_mut(len);
        self.bytes = tail;
        head
    }

    /// Copies as many bytes of `source` as fit into the free region, drops the
    /// rest of them, and moves past the bytes copied. The free bytes behind
    /// them stay as they are. This never fails.
    pub fn write_str(&mut self, source: &[u8])
        ensures
            final(self).bytes@ == old(self).bytes@.skip(
                fitting(source@.len(), old(self).room()) as int,
            ),
            final(old(self).bytes)@ == source@.take(
                fitting(source@.len(), old(self).room()) as int,
            ) + final(final(self).bytes)@,
    {
        let len: usize = if source.len() < self.bytes.len() {
            source.len()
        } else {
            self.bytes.len()
        };
        let head = self.claim(len);
        let mut i: usize = 0;
        while i < len
            invariant
                0 <= i <= len,
                len <= source@.len(),
                head@.len() == len,
                head@.take(i as int) == source@.take(i as int),
            decreases len - i,
        {
            head[i] = source[i];
            i += 1;
        }
    }
}

} // verus!
