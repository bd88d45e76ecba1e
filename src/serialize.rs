use vstd::prelude::*;

use crate::buffer::{padding_for, zeros, ArchiveBuffer};
use crate::error::SerializeError;
use crate::layout::{check_byte_of, le_bytes};
use crate::scratch::{popped, pushed, ScratchArena};
use crate::model::{
    enc_field, enc_prefix, enc_texts, encode, encode_body, handles_valid, Field, Graph, SHARED_BACKREF, SHARED_INLINE,
    SHARED_INLINE_SECOND,
};
use crate::shared::SharedWriteTable;

verus! {

/// The state of one write: the archive buffer (with its scratch arena) and
/// the table of shared values already emitted.
pub struct CacheableSerializer {
    serializer: ArchiveBuffer,
    shared: SharedWriteTable,
}

impl CacheableSerializer {
    /// The bytes written so far.
    pub closed spec fn bytes(&self) -> Seq<u8> {
        self.serializer@
    }

    /// Shared handle to the position of its first emission.
    pub closed spec fn shared_table(&self) -> Map<nat, nat> {
        self.shared@
    }

    /// The number of shared handles the table accepts.
    pub closed spec fn shared_capacity(&self) -> nat {
        self.shared.capacity()
    }

    pub closed spec fn wf(&self) -> bool {
        self.serializer.wf()
    }

    /// The scratch arena.
    pub closed spec fn scratch(&self) -> ScratchArena {
        self.serializer.scratch()
    }

    /// A fresh serializer for a value whose pool holds `shared_count` values.
    pub fn new(shared_count: usize) -> (r: Self)
        ensures
            r.bytes() == Seq::<u8>::empty(),
            r.shared_table() == Map::<nat, nat>::empty(),
            r.shared_capacity() == shared_count,
            r.wf(),
    {
        CacheableSerializer {
            serializer: ArchiveBuffer::new(),
            shared: SharedWriteTable::new(shared_count),
        }
    }

    pub fn pos(&self) -> (r: usize)
        ensures
            r == self.bytes().len(),
    {
        self.serializer.pos()
    }

    pub fn write(&mut self, bytes: &[u8])
        ensures
            final(self).bytes() == old(self).bytes() + bytes@,
            final(self).shared_table() == old(self).shared_table(),
            final(self).shared_capacity() == old(self).shared_capacity(),
            final(self).wf() == old(self).wf(),
    {
        self.serializer.write(bytes)
    }

    pub fn write_byte(&mut self, b: u8)
        ensures
            final(self).bytes() == old(self).bytes().push(b),
            final(self).shared_table() == old(self).shared_table(),
            final(self).shared_capacity() == old(self).shared_capacity(),
            final(self).wf() == old(self).wf(),
    {
        self.serializer.write_byte(b)
    }

    pub fn write_u64(&mut self, v: u64)
        ensures
            final(self).bytes() == old(self).bytes() + le_bytes(v),
            final(self).shared_table() == old(self).shared_table(),
            final(self).shared_capacity() == old(self).shared_capacity(),
            final(self).wf() == old(self).wf(),
    {
        self.serializer.write_u64(v)
    }

    pub fn pad(&mut self, padding: usize)
        ensures
            final(self).bytes() == old(self).bytes() + zeros(padding as nat),
            final(self).shared_table() == old(self).shared_table(),
            final(self).shared_capacity() == old(self).shared_capacity(),
            final(self).wf() == old(self).wf(),
    {
        self.serializer.pad(padding)
    }

    pub fn align(&mut self, align: usize) -> (r: Result<usize, SerializeError>)
        ensures
            align == 0 ==> r == Err::<usize, SerializeError>(SerializeError::SerializerError)
                && final(self).bytes() == old(self).bytes(),
            align > 0 ==> {
                &&& final(self).bytes() == old(self).bytes() + zeros(
                    padding_for(old(self).bytes().len(), align as nat),
                )
                &&& r == Ok::<usize, SerializeError>(final(self).bytes().len() as usize)
                &&& (final(self).bytes().len() as int) % (align as int) == 0
            },
            final(self).shared_table() == old(self).shared_table(),
            final(self).shared_capacity() == old(self).shared_capacity(),
            final(self).wf() == old(self).wf(),
    {
        self.serializer.align(align)
    }

    /// Reserves `size` zeroed scratch bytes aligned to `align`, past every
    /// live region; see `ScratchArena::push`.
    pub fn push_scratch(&mut self, size: usize, align: usize) -> (r: Result<usize, SerializeError>)
        requires
            old(self).wf(),
        ensures
            final(self).wf(),
            final(self).bytes() == old(self).bytes(),
            final(self).shared_table() == old(self).shared_table(),
            final(self).shared_capacity() == old(self).shared_capacity(),
            pushed(old(self).scratch(), final(self).scratch(), size, align, r),
    {
        self.serializer.push_scratch(size, align)
    }

    /// Gives back the most recent scratch region; see `ScratchArena::pop`.
    pub fn pop_scratch(&mut self, start: usize, size: usize) -> (r: Result<(), SerializeError>)
        requires
            old(self).wf(),
        ensures
            final(self).wf(),
            final(self).bytes() == old(self).bytes(),
            final(self).shared_table() == old(self).shared_table(),
            final(self).shared_capacity() == old(self).shared_capacity(),
            popped(old(self).scratch(), final(self).scratch(), start, size, r),
    {
        self.serializer.pop_scratch(start, size)
    }

    /// Where the shared value `handle` was first emitted, if it was.
    pub fn get_shared_ptr(&self, handle: usize) -> (r: Option<usize>)
        ensures
            self.shared_table().contains_key(handle as nat) ==> r is Some && r->0 as nat
                == self.shared_table()[handle as nat],
            !self.shared_table().contains_key(handle as nat) ==> r is None,
    {
        self.shared.get_shared_ptr(handle)
    }

    /// Records the first emission of `handle` at `pos`; a handle outside the
    /// pool, or one recorded before, gives `SharedError`.
    pub fn add_shared_ptr(&mut self, handle: usize, pos: usize) -> (r: Result<(), SerializeError>)
        ensures
            final(self).bytes() == old(self).bytes(),
            final(self).shared_capacity() == old(self).shared_capacity(),
            final(self).wf() == old(self).wf(),
            (handle < old(self).shared_capacity() && !old(self).shared_table().contains_key(
                handle as nat,
            )) ==> {
                &&& r == Ok::<(), SerializeError>(())
                &&& final(self).shared_table() == old(self).shared_table().insert(
                    handle as nat,
                    pos as nat,
                )
            },
            !(handle < old(self).shared_capacity() && !old(self).shared_table().contains_key(
                handle as nat,
            )) ==> {
                &&& r == Err::<(), SerializeError>(SerializeError::SharedError)
                &&& final(self).shared_table() == old(self).shared_table()
            },
    {
        self.shared.add_shared_ptr(handle, pos)
    }

    /// Hands over the written bytes.
    pub fn into_bytes(self) -> (r: Vec<u8>)
        ensures
            r@ == self.bytes(),
    {
        self.serializer.into_bytes()
    }
}

/// Writes the texts of `l` one after another, each with its length.
fn write_texts(buf: &mut CacheableSerializer, l: &Vec<String>)
    ensures
        final(buf).bytes() == old(buf).bytes() + enc_texts(l@.map_values(|s: String| s@)),
        final(buf).shared_table() == old(buf).shared_table(),
        final(buf).shared_capacity() == old(buf).shared_capacity(),
        final(buf).wf() == old(buf).wf(),
{
    let ghost texts = l@.map_values(|s: String| s@);
    let mut k: usize = 0;
    while k < l.len()
        invariant
            k <= l@.len(),
            texts == l@.map_values(|s: String| s@),
            buf.bytes() == old(buf).bytes() + enc_texts(texts.subrange(0, k as int)),
            buf.shared_table() == old(buf).shared_table(),
            buf.shared_capacity() == old(buf).shared_capacity(),
            buf.wf() == old(buf).wf(),
        decreases l@.len() - k,
    {
        let bs = l[k].as_str().as_bytes();
        buf.write_u64(bs.len() as u64);
        buf.write(bs);
        proof {
            let next = texts.subrange(0, k + 1);
            assert(next.drop_last() =~= texts.subrange(0, k as int));
            assert(next.last() == l@[k as int]@);
            assert(buf.bytes() =~= old(buf).bytes() + enc_texts(next));
        }
        k = k + 1;
    }
    assert(texts.subrange(0, k as int) =~= texts);
}

/// Writes a record to a fresh archive. Each shared value is written in full
/// where it is first reached and as a back-reference to that position after;
/// skipped fields take no bytes. The check byte of the body comes last. A
/// handle outside the pool fails the call.
pub fn to_bytes(g: &Graph) -> (r: Result<Vec<u8>, SerializeError>)
    ensures
        handles_valid(g@) ==> r is Ok && r->Ok_0@ == encode(g@),
        !handles_valid(g@) ==> r == Err::<Vec<u8>, SerializeError>(SerializeError::SharedError),
{
    let mut buf = CacheableSerializer::new(g.shared.len());
    let mut i: usize = 0;
    while i < g.fields.len()
        invariant
            i <= g.fields@.len(),
            buf.bytes() == enc_prefix(g@, i as nat).out,
            buf.shared_table() == enc_prefix(g@, i as nat).table,
            buf.shared_capacity() == g.shared@.len(),
            forall|h: nat| #[trigger] buf.shared_table().contains_key(h) ==> h < g.shared@.len(),
            forall|j: int|
                0 <= j < i ==> (#[trigger] g@.fields[j] is Shared ==> g@.fields[j]->Shared_0
                    < g@.shared.len()),
            buf.wf(),
        decreases g.fields@.len() - i,
    {
        let ghost before = enc_prefix(g@, i as nat);
        assert(g@.fields[i as int] == g.fields@[i as int]@);
        let ghost ef = enc_field(g@.shared, g@.fields[i as int], before);
        match &g.fields[i] {
            Field::Int(v) => {
                buf.write_u64(*v);
                assert(buf.bytes() =~= ef.out);
            },
            Field::Bytes(b) => {
                buf.write_u64(b.len() as u64);
                buf.write(b.as_slice());
                assert(buf.bytes() =~= ef.out);
            },
            Field::Text(s) => {
                let bs = s.as_str().as_bytes();
                buf.write_u64(bs.len() as u64);
                buf.write(bs);
                assert(buf.bytes() =~= ef.out);
            },
            Field::TextList(l) => {
                buf.write_u64(l.len() as u64);
                write_texts(&mut buf, l);
                assert(buf.bytes() =~= ef.out);
            },
            Field::Shared(h) => {
                match buf.get_shared_ptr(*h) {
                    Some(p) => {
                        buf.write_byte(SHARED_BACKREF);
                        buf.write_u64(p as u64);
                        assert(before.out.push(SHARED_BACKREF) =~= before.out + seq![SHARED_BACKREF]);
                        assert(buf.bytes() =~= ef.out);
                    },
                    None => {
                        if *h >= g.shared.len() {
                            assert(!handles_valid(g@));
                            return Err(SerializeError::SharedError);
                        }
                        let pos = buf.pos();
                        let blob = &g.shared[*h];
                        assert(g@.shared[*h as int] == blob@);
                        buf.write_byte(SHARED_INLINE);
                        buf.write_byte(SHARED_INLINE_SECOND);
                        buf.write_u64(blob.len() as u64);
                        buf.write(blob.as_slice());
                        if buf.add_shared_ptr(*h, pos).is_err() {
                            return Err(SerializeError::SharedError);
                        }
                        assert(buf.bytes() =~= ef.out);
                    },
                }
            },
            Field::Skip(_) => {},
        }
        assert(enc_prefix(g@, (i + 1) as nat) == enc_field(g@.shared, g@.fields[i as int], before));
        assert(buf.bytes() =~= enc_prefix(g@, (i + 1) as nat).out);
        assert(buf.shared_table() == enc_prefix(g@, (i + 1) as nat).table);
        i = i + 1;
    }
    let mut out = buf.into_bytes();
    assert(out@ == encode_body(g@));
    let check = check_byte_of(out.as_slice());
    out.push(check);
    Ok(out)
}

} // verus!
