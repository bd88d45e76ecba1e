use vstd::prelude::*;

use crate::buffer::{padding_for, zeros};
use crate::error::SerializeError;

verus! {

/// Working memory for values whose layout is computed before their final
/// position is known. Regions are handed out at aligned offsets above every
/// live region and taken back in last-in first-out order.
pub struct ScratchArena {
    storage: Vec<u8>,
    regions: Vec<(usize, usize)>,
}

impl ScratchArena {
    /// The live regions, as (start, size), oldest first.
    pub closed spec fn regions(&self) -> Seq<(usize, usize)> {
        self.regions@
    }

    /// The arena's memory.
    pub closed spec fn bytes(&self) -> Seq<u8> {
        self.storage@
    }

    /// Live regions lie within the memory, in order, without overlapping.
    pub open spec fn wf(&self) -> bool {
        &&& forall|i: int|
            0 <= i < self.regions().len() ==> #[trigger] self.regions()[i].0 + self.regions()[i].1
                <= self.bytes().len()
        &&& forall|i: int, j: int|
            0 <= i < j < self.regions().len() ==> #[trigger] self.regions()[i].0
                + self.regions()[i].1 <= #[trigger] self.regions()[j].0
    }

    pub fn new() -> (r: Self)
        ensures
            r.regions() == Seq::<(usize, usize)>::empty(),
            r.bytes() == Seq::<u8>::empty(),
            r.wf(),
    {
        ScratchArena { storage: Vec::new(), regions: Vec::new() }
    }

    /// Reserves `size` zeroed bytes at the first multiple of `align` past the
    /// arena's memory and returns their start. An alignment of zero, or a
    /// region that would pass `usize::MAX`, is refused.
    pub fn push(&mut self, size: usize, align: usize) -> (r: Result<usize, SerializeError>)
        requires
            old(self).wf(),
        ensures
            final(self).wf(),
            pushed(*old(self), *final(self), size, align, r),
    {
        if align == 0 {
            return Err(SerializeError::ScratchSpaceError);
        }
        let top = self.storage.len();
        let rem = top % align;
        let pad = if rem == 0 {
            0
        } else {
            align - rem
        };
        assert(pad == padding_for(top as nat, align as nat)) by {
            assert(0 <= rem < align) by (nonlinear_arith)
                requires
                    rem == top % align,
                    align > 0,
            ;
            if rem == 0 {
                vstd::arithmetic::div_mod::lemma_mod_self_0(align as int);
            } else {
                vstd::arithmetic::div_mod::lemma_small_mod((align - rem) as nat, align as nat);
            }
        }
        if pad > usize::MAX - top || size > usize::MAX - top - pad {
            return Err(SerializeError::ScratchSpaceError);
        }
        let start = top + pad;
        assert(start % align == 0) by (nonlinear_arith)
            requires
                start == top + pad,
                rem == top % align,
                pad == if rem == 0 {
                    0
                } else {
                    align - rem
                },
                align > 0,
        ;
        let end = start + size;
        let mut k = top;
        while k < end
            invariant
                top <= k <= end,
                self.storage@ == old(self).storage@ + zeros((k - top) as nat),
                self.regions == old(self).regions,
            decreases end - k,
        {
            self.storage.push(0u8);
            k = k + 1;
            assert(self.storage@ =~= old(self).storage@ + zeros((k - top) as nat));
        }
        self.regions.push((start, size));
        assert(self.storage@ =~= old(self).storage@ + zeros((start + size - top) as nat));
        assert forall|i: int| 0 <= i < old(self).regions().len() implies #[trigger] old(self).regions()[i].0
            + old(self).regions()[i].1 <= start by {}
        assert forall|i: int, j: int|
            0 <= i < j < self.regions().len() implies #[trigger] self.regions()[i].0
                + self.regions()[i].1 <= #[trigger] self.regions()[j].0 by {
            if j == self.regions().len() - 1 {
                assert(old(self).regions()[i].0 + old(self).regions()[i].1 <= old(self).bytes().len());
            }
        }
        Ok(start)
    }

    /// Gives back the most recent region, which must be `(start, size)`; the
    /// memory from `start` on is released.
    pub fn pop(&mut self, start: usize, size: usize) -> (r: Result<(), SerializeError>)
        requires
            old(self).wf(),
        ensures
            final(self).wf(),
            popped(*old(self), *final(self), start, size, r),
    {
        let n = self.regions.len();
        if n == 0 {
            return Err(SerializeError::ScratchSpaceError);
        }
        let last = self.regions[n - 1];
        if last.0 != start || last.1 != size {
            return Err(SerializeError::ScratchSpaceError);
        }
        assert(old(self).regions()[n - 1].0 + old(self).regions()[n - 1].1 <= old(self).bytes().len());
        self.regions.pop();
        self.storage.truncate(start);
        assert(self.regions@ =~= old(self).regions@.drop_last());
        assert(self.storage@ =~= old(self).storage@.subrange(0, start as int));
        assert forall|i: int| 0 <= i < self.regions().len() implies #[trigger] self.regions()[i].0
            + self.regions()[i].1 <= self.bytes().len() by {
            assert(old(self).regions()[i].0 + old(self).regions()[i].1 <= old(self).regions()[n
                - 1].0);
        }
        Ok(())
    }

    /// Copies `data` to the start of the live region that begins at `start`.
    pub fn write(&mut self, start: usize, data: &[u8])
        requires
            old(self).wf(),
            exists|i: int|
                0 <= i < old(self).regions().len() && #[trigger] old(self).regions()[i].0 == start
                    && data@.len() <= old(self).regions()[i].1,
        ensures
            final(self).wf(),
            final(self).regions() == old(self).regions(),
            final(self).bytes() == old(self).bytes().subrange(0, start as int) + data@
                + old(self).bytes().subrange(start + data@.len(), old(self).bytes().len() as int),
    {
        let len = self.storage.len();
        proof {
            let i = choose|i: int|
                0 <= i < old(self).regions().len() && #[trigger] old(self).regions()[i].0 == start
                    && data@.len() <= old(self).regions()[i].1;
            assert(old(self).regions()[i].0 + old(self).regions()[i].1 <= old(self).bytes().len());
        }
        let mut k: usize = 0;
        while k < data.len()
            invariant
                k <= data@.len(),
                len == old(self).storage@.len(),
                start + data@.len() <= old(self).storage@.len(),
                self.regions == old(self).regions,
                self.storage@.len() == old(self).storage@.len(),
                self.storage@ =~= old(self).storage@.subrange(0, start as int) + data@.subrange(
                    0,
                    k as int,
                ) + old(self).storage@.subrange(start + k, old(self).storage@.len() as int),
            decreases data@.len() - k,
        {
            self.storage.set(start + k, data[k]);
            k = k + 1;
            assert(self.storage@ =~= old(self).storage@.subrange(0, start as int) + data@.subrange(
                0,
                k as int,
            ) + old(self).storage@.subrange(start + k, old(self).storage@.len() as int));
        }
        assert(data@.subrange(0, k as int) =~= data@);
    }

    /// Copies `size` bytes of the arena's memory from `start`.
    pub fn read(&self, start: usize, size: usize) -> (r: Vec<u8>)
        requires
            start + size <= self.bytes().len(),
        ensures
            r@ == self.bytes().subrange(start as int, start + size),
    {
        let len = self.storage.len();
        let mut out: Vec<u8> = Vec::new();
        let mut k: usize = 0;
        while k < size
            invariant
                k <= size,
                len == self.storage@.len(),
                start + size <= self.storage@.len(),
                out@ == self.storage@.subrange(start as int, start + k),
            decreases size - k,
        {
            out.push(self.storage[start + k]);
            k = k + 1;
            assert(out@ =~= self.storage@.subrange(start as int, start + k));
        }
        out
    }
}

/// What `push(size, align)` does to the arena `a`, giving `b` and `r`: an
/// aligned start past every live region and past all of the old memory,
/// with the region zeroed; or `ScratchSpaceError` and no change.
pub open spec fn pushed(
    a: ScratchArena,
    b: ScratchArena,
    size: usize,
    align: usize,
    r: Result<usize, SerializeError>,
) -> bool {
    let top = a.bytes().len();
    let start = top + padding_for(top, align as nat);
    if align == 0 || start + size > usize::MAX {
        r == Err::<usize, SerializeError>(SerializeError::ScratchSpaceError) && b == a
    } else {
        &&& r == Ok::<usize, SerializeError>(start as usize)
        &&& (start as int) % (align as int) == 0
        &&& forall|i: int|
            0 <= i < a.regions().len() ==> #[trigger] a.regions()[i].0 + a.regions()[i].1 <= start
        &&& b.regions() == a.regions().push((start as usize, size))
        &&& b.bytes() == a.bytes() + zeros((start + size - top) as nat)
    }
}

/// What `pop(start, size)` does to the arena `a`, giving `b` and `r`.
pub open spec fn popped(
    a: ScratchArena,
    b: ScratchArena,
    start: usize,
    size: usize,
    r: Result<(), SerializeError>,
) -> bool {
    if a.regions().len() > 0 && a.regions().last() == (start, size) {
        &&& r == Ok::<(), SerializeError>(())
        &&& b.regions() == a.regions().drop_last()
        &&& b.bytes() == a.bytes().subrange(0, start as int)
    } else {
        r == Err::<(), SerializeError>(SerializeError::ScratchSpaceError) && b == a
    }
}

} // verus!
