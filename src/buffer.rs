use vstd::prelude::*;

use crate::error::SerializeError;
use crate::layout::{le_bytes, push_u64};
use crate::scratch::{popped, pushed, ScratchArena};

verus! {

/// A growing byte buffer that archive records are written to, with a scratch
/// arena beside it.
pub struct ArchiveBuffer {
    bytes: Vec<u8>,
    scratch: ScratchArena,
}

/// `n` zero bytes.
pub open spec fn zeros(n: nat) -> Seq<u8> {
    Seq::new(n, |i: int| 0u8)
}

/// The number of filler bytes that bring `pos` to a multiple of `align`.
pub open spec fn padding_for(pos: nat, align: nat) -> nat
    recommends
        align > 0,
{
    ((align - pos % align) % align as int) as nat
}

impl View for ArchiveBuffer {
    type V = Seq<u8>;

    closed spec fn view(&self) -> Seq<u8> {
        self.bytes@
    }
}

impl ArchiveBuffer {
    /// The scratch arena.
    pub closed spec fn scratch(&self) -> ScratchArena {
        self.scratch
    }

    pub closed spec fn wf(&self) -> bool {
        self.scratch.wf()
    }

    pub fn new() -> (r: Self)
        ensures
            r@ == Seq::<u8>::empty(),
            r.scratch().regions() == Seq::<(usize, usize)>::empty(),
            r.scratch().bytes() == Seq::<u8>::empty(),
            r.wf(),
    {
        ArchiveBuffer { bytes: Vec::new(), scratch: ScratchArena::new() }
    }

    /// The offset at which the next byte will be written.
    pub fn pos(&self) -> (r: usize)
        ensures
            r == self@.len(),
    {
        self.bytes.len()
    }

    /// Appends `bytes` at the current position.
    pub fn write(&mut self, bytes: &[u8])
        ensures
            final(self)@ == old(self)@ + bytes@,
            final(self).scratch() == old(self).scratch(),
            final(self).wf() == old(self).wf(),
    {
        let mut i: usize = 0;
        while i < bytes.len()
            invariant
                i <= bytes@.len(),
                self@ == old(self)@ + bytes@.subrange(0, i as int),
                self.scratch == old(self).scratch,
            decreases bytes@.len() - i,
        {
            self.bytes.push(bytes[i]);
            i = i + 1;
            assert(self@ =~= old(self)@ + bytes@.subrange(0, i as int));
        }
        assert(bytes@.subrange(0, i as int) =~= bytes@);
    }

    /// Appends one byte.
    pub fn write_byte(&mut self, b: u8)
        ensures
            final(self)@ == old(self)@.push(b),
            final(self).scratch() == old(self).scratch(),
            final(self).wf() == old(self).wf(),
    {
        self.bytes.push(b);
    }

    /// Appends the eight little-endian bytes of `v`.
    pub fn write_u64(&mut self, v: u64)
        ensures
            final(self)@ == old(self)@ + le_bytes(v),
            final(self).scratch() == old(self).scratch(),
            final(self).wf() == old(self).wf(),
    {
        push_u64(&mut self.bytes, v);
    }

    /// Appends `padding` zero bytes.
    pub fn pad(&mut self, padding: usize)
        ensures
            final(self)@ == old(self)@ + zeros(padding as nat),
            final(self).scratch() == old(self).scratch(),
            final(self).wf() == old(self).wf(),
    {
        let mut i: usize = 0;
        while i < padding
            invariant
                i <= padding,
                self@ == old(self)@ + zeros(i as nat),
                self.scratch == old(self).scratch,
            decreases padding - i,
        {
            self.bytes.push(0u8);
            i = i + 1;
            assert(self@ =~= old(self)@ + zeros(i as nat));
        }
    }

    /// Pads with zeros up to the next multiple of `align` and returns the new
    /// position; an alignment of zero is refused.
    pub fn align(&mut self, align: usize) -> (r: Result<usize, SerializeError>)
        ensures
            align == 0 ==> r == Err::<usize, SerializeError>(SerializeError::SerializerError)
                && *final(self) == *old(self),
            align > 0 ==> {
                &&& final(self)@ == old(self)@ + zeros(padding_for(old(self)@.len(), align as nat))
                &&& r == Ok::<usize, SerializeError>(final(self)@.len() as usize)
                &&& (final(self)@.len() as int) % (align as int) == 0
            },
            final(self).scratch() == old(self).scratch(),
            final(self).wf() == old(self).wf(),
    {
        if align == 0 {
            return Err(SerializeError::SerializerError);
        }
        let start = self.bytes.len();
        let rem = start % align;
        let padding = if rem == 0 {
            0
        } else {
            align - rem
        };
        assert(padding == padding_for(start as nat, align as nat)) by {
            assert(0 <= rem < align) by (nonlinear_arith)
                requires
                    rem == start % align,
                    align > 0,
            ;
            if rem == 0 {
                vstd::arithmetic::div_mod::lemma_mod_self_0(align as int);
            } else {
                vstd::arithmetic::div_mod::lemma_small_mod((align - rem) as nat, align as nat);
            }
        }
        self.pad(padding);
        let p = self.bytes.len();
        assert(p % align == 0) by (nonlinear_arith)
            requires
                p == start + padding,
                rem == start % align,
                padding == if rem == 0 {
                    0
                } else {
                    align - rem
                },
                align > 0,
        ;
        Ok(p)
    }

    /// Reserves `size` zeroed scratch bytes aligned to `align`; see
    /// `ScratchArena::push`. The archive bytes are untouched.
    pub fn push_scratch(&mut self, size: usize, align: usize) -> (r: Result<usize, SerializeError>)
        requires
            old(self).wf(),
        ensures
            final(self).wf(),
            final(self)@ == old(self)@,
            pushed(old(self).scratch(), final(self).scratch(), size, align, r),
    {
        self.scratch.push(size, align)
    }

    /// Gives back the most recent scratch region; see `ScratchArena::pop`.
    pub fn pop_scratch(&mut self, start: usize, size: usize) -> (r: Result<(), SerializeError>)
        requires
            old(self).wf(),
        ensures
            final(self).wf(),
            final(self)@ == old(self)@,
            popped(old(self).scratch(), final(self).scratch(), start, size, r),
    {
        self.scratch.pop(start, size)
    }

    /// Copies `data` into the live scratch region that begins at `start`.
    pub fn write_scratch(&mut self, start: usize, data: &[u8])
        requires
            old(self).wf(),
            exists|i: int|
                0 <= i < old(self).scratch().regions().len() && #[trigger] old(self).scratch().regions()[i].0
                    == start && data@.len() <= old(self).scratch().regions()[i].1,
        ensures
            final(self).wf(),
            final(self)@ == old(self)@,
            final(self).scratch().regions() == old(self).scratch().regions(),
            final(self).scratch().bytes() == old(self).scratch().bytes().subrange(0, start as int)
                + data@ + old(self).scratch().bytes().subrange(
                start + data@.len(),
                old(self).scratch().bytes().len() as int,
            ),
    {
        self.scratch.write(start, data)
    }

    /// Copies `size` bytes of scratch memory from `start`.
    pub fn read_scratch(&self, start: usize, size: usize) -> (r: Vec<u8>)
        requires
            start + size <= self.scratch().bytes().len(),
        ensures
            r@ == self.scratch().bytes().subrange(start as int, start + size),
    {
        self.scratch.read(start, size)
    }

    /// Hands over the written bytes.
    pub fn into_bytes(self) -> (r: Vec<u8>)
        ensures
            r@ == self@,
    {
        self.bytes
    }
}

} // verus!
