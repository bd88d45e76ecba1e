use vstd::prelude::*;
use vstd::utf8::{decode_utf8, valid_utf8};

use crate::error::DeserializeError;
use crate::layout::{check_byte_of, read_u64};
use crate::model::{
    dec_field, dec_prefix, dec_texts, decode, read_lp, read_text, check_byte, decode_body, DecState,
    Field, FieldV, Graph, GraphV, Shape, SHARED_BACKREF, SHARED_INLINE, SHARED_INLINE_SECOND,
};
use crate::shared::SharedReadTable;

verus! {

/// The state of one read: for each archive offset at which a shared value
/// was materialized, that value's index in the restored pool.
pub struct CacheableDeserializer {
    shared: SharedReadTable,
}

impl View for CacheableDeserializer {
    type V = Map<nat, nat>;

    closed spec fn view(&self) -> Map<nat, nat> {
        self.shared@
    }
}

impl CacheableDeserializer {
    pub fn new() -> (r: Self)
        ensures
            r@ == Map::<nat, nat>::empty(),
    {
        CacheableDeserializer { shared: SharedReadTable::new() }
    }

    /// The pool index materialized from `offset`, if any.
    pub fn get_shared_ptr(&self, offset: usize) -> (r: Option<usize>)
        ensures
            self@.contains_key(offset as nat) ==> r is Some && r->0 as nat == self@[offset as nat],
            !self@.contains_key(offset as nat) ==> r is None,
    {
        self.shared.get_shared_ptr(offset)
    }

    /// Registers `offset` as materialized into pool index `index`; a second
    /// registration of one offset gives `DuplicateSharedPointer`.
    pub fn add_shared_ptr(&mut self, offset: usize, index: usize) -> (r: Result<
        (),
        DeserializeError,
    >)
        ensures
            !old(self)@.contains_key(offset as nat) ==> {
                &&& r == Ok::<(), DeserializeError>(())
                &&& final(self)@ == old(self)@.insert(offset as nat, index as nat)
            },
            old(self)@.contains_key(offset as nat) ==> {
                &&& r == Err::<(), DeserializeError>(DeserializeError::DuplicateSharedPointer)
                &&& final(self)@ == old(self)@
            },
    {
        self.shared.add_shared_ptr(offset, index)
    }
}

/// Supplies, on read, the values of fields that no archive holds.
pub trait SkipContext: Sized {
    /// What the context, in this state, gives for the skipped field at
    /// position `index` of the record: its value, or why it cannot.
    spec fn rebuilt(&self, index: usize) -> Result<u64, DeserializeError>;

    /// The context's state after it gave that.
    spec fn after_rebuild(&self, index: usize) -> Self;

    /// Rebuilds the skipped field at position `index` of the record.
    fn reconstruct(&mut self, index: usize) -> (r: Result<u64, DeserializeError>)
        ensures
            r == old(self).rebuilt(index),
            *final(self) == old(self).after_rebuild(index),
    ;
}

/// A context that rebuilds every skipped field as one run-time handle, the
/// one it was made with (a lock or cache of the current process, say).
pub struct CurrentHandle {
    pub handle: u64,
}

impl SkipContext for CurrentHandle {
    open spec fn rebuilt(&self, index: usize) -> Result<u64, DeserializeError> {
        Ok(self.handle)
    }

    open spec fn after_rebuild(&self, index: usize) -> Self {
        *self
    }

    fn reconstruct(&mut self, index: usize) -> (r: Result<u64, DeserializeError>) {
        Ok(self.handle)
    }
}

/// Rebuilding the skipped fields of `d` from position `i` on with context
/// `c`, in field order, once each: the record with those values (or the
/// first error the context gives) and the context afterwards.
pub open spec fn fill_skips<C: SkipContext>(c: C, d: GraphV, i: nat) -> (
    Result<GraphV, DeserializeError>,
    C,
)
    decreases d.fields.len() - i,
{
    if i >= d.fields.len() {
        (Ok(d), c)
    } else if d.fields[i as int] is Skip {
        match c.rebuilt(i as usize) {
            Ok(v) => fill_skips(
                c.after_rebuild(i as usize),
                GraphV { shared: d.shared, fields: d.fields.update(i as int, FieldV::Skip(v)) },
                i + 1,
            ),
            Err(e) => (Err(e), c.after_rebuild(i as usize)),
        }
    } else {
        fill_skips(c, d, i + 1)
    }
}

/// Relies on `String::from_utf8`: it accepts exactly the valid UTF-8
/// sequences, and the string it returns holds the characters they encode.
#[verifier::external_body]
fn utf8_to_string(bytes: Vec<u8>) -> (r: Option<String>)
    ensures
        r is Some <==> valid_utf8(bytes@),
        r is Some ==> r->0@ == decode_utf8(bytes@),
{
    String::from_utf8(bytes).ok()
}

/// Copies `b[from..to]`.
fn copy_range(b: &[u8], from: usize, to: usize) -> (r: Vec<u8>)
    requires
        from <= to <= b@.len(),
    ensures
        r@ == b@.subrange(from as int, to as int),
{
    let mut out: Vec<u8> = Vec::new();
    let mut i = from;
    while i < to
        invariant
            from <= i <= to,
            to <= b@.len(),
            out@ == b@.subrange(from as int, i as int),
        decreases to - i,
    {
        out.push(b[i]);
        i = i + 1;
        assert(out@ =~= b@.subrange(from as int, i as int));
    }
    out
}

/// Reads a length-prefixed byte sequence at `pos`.
fn read_lp_at(b: &[u8], pos: usize) -> (r: Option<(Vec<u8>, usize)>)
    ensures
        match read_lp(b@, pos as nat) {
            Some((t, p)) => match r {
                Some((v, q)) => v@ == t && q == p,
                None => false,
            },
            None => r is None,
        },
{
    if b.len() < 8 || pos > b.len() - 8 {
        return None;
    }
    let n = read_u64(b, pos);
    let rest = b.len() - pos - 8;
    if n > rest as u64 {
        return None;
    }
    let end = pos + 8 + n as usize;
    let t = copy_range(b, pos + 8, end);
    Some((t, end))
}

/// Reads a length-prefixed UTF-8 text at `pos`.
fn read_text_at(b: &[u8], pos: usize) -> (r: Option<(String, usize)>)
    ensures
        match read_text(b@, pos as nat) {
            Some((t, p)) => match r {
                Some((v, q)) => v@ == t && q == p,
                None => false,
            },
            None => r is None,
        },
{
    match read_lp_at(b, pos) {
        Some((t, p)) => match utf8_to_string(t) {
            Some(s) => Some((s, p)),
            None => None,
        },
        None => None,
    }
}

/// Reads `count` texts one after another from `pos`.
fn read_texts_at(b: &[u8], pos: usize, count: u64) -> (r: Option<(Vec<String>, usize)>)
    requires
        pos <= b@.len(),
    ensures
        match dec_texts(b@, pos as nat, count as nat) {
            Some((l, p)) => match r {
                Some((v, q)) => v@.map_values(|s: String| s@) == l && q == p && q >= pos,
                None => false,
            },
            None => r is None,
        },
{
    let mut out: Vec<String> = Vec::new();
    let mut p = pos;
    let mut k: u64 = 0;
    while k < count
        invariant
            k <= count,
            pos <= p,
            dec_texts(b@, pos as nat, k as nat) == Some((out@.map_values(|s: String| s@), p as nat)),
        decreases count - k,
    {
        match read_text_at(b, p) {
            Some((s, q)) => {
                let ghost prev = out@.map_values(|s: String| s@);
                out.push(s);
                assert(out@.map_values(|s: String| s@) =~= prev.push(s@));
                p = q;
                k = k + 1;
            },
            None => {
                proof {
                    lemma_dec_texts_stays_failed(b@, pos as nat, k as nat, count as nat);
                }
                return None;
            },
        }
    }
    Some((out, p))
}

/// Once a text fails to read, every longer run fails too.
proof fn lemma_dec_texts_stays_failed(b: Seq<u8>, pos: nat, k: nat, n: nat)
    requires
        k < n,
        dec_texts(b, pos, k) is Some,
        read_text(b, dec_texts(b, pos, k)->0 .1) is None,
    ensures
        dec_texts(b, pos, n) is None,
    decreases n - k,
{
    if n == k + 1 {
    } else {
        lemma_dec_texts_stays_failed(b, pos, k, (n - 1) as nat);
    }
}

/// The reader state that the restored fields, pool and table stand for.
spec fn state_of(pos: usize, fields: Seq<Field>, pool: Seq<Vec<u8>>, seen: Map<nat, nat>) -> DecState {
    DecState {
        pos: pos as nat,
        fields: fields.map_values(|f: Field| f@),
        pool: pool.map_values(|b: Vec<u8>| b@),
        seen,
    }
}

/// Once one field fails to read, the whole schema fails.
proof fn lemma_dec_prefix_stays_failed(b: Seq<u8>, schema: Seq<Shape>, k: nat, n: nat)
    requires
        k <= n,
        dec_prefix(b, schema, k) is None,
    ensures
        dec_prefix(b, schema, n) is None,
    decreases n - k,
{
    if n > k {
        lemma_dec_prefix_stays_failed(b, schema, k, (n - 1) as nat);
    }
}

/// Validates `bytes` as an archive body of a record with the given schema and
/// restores the record, with each skipped field as `Skip(0)`. Any byte
/// sequence that is not exactly such an archive gives `CheckBytesError`.
fn check_body(bytes: &[u8], schema: &[Shape]) -> (r: Result<Graph, DeserializeError>)
    ensures
        match decode_body(bytes@, schema@) {
            Some(g) => match r {
                Ok(v) => v@ == g,
                Err(_) => false,
            },
            None => r == Err::<Graph, DeserializeError>(DeserializeError::CheckBytesError),
        },
{
    let mut pos: usize = 0;
    let mut fields: Vec<Field> = Vec::new();
    let mut pool: Vec<Vec<u8>> = Vec::new();
    let mut seen = CacheableDeserializer::new();
    let mut i: usize = 0;
    assert(state_of(pos, fields@, pool@, seen@) == dec_prefix(bytes@, schema@, 0).unwrap()) by {
        assert(fields@.map_values(|f: Field| f@) =~= Seq::<FieldV>::empty());
        assert(pool@.map_values(|b: Vec<u8>| b@) =~= Seq::<Seq<u8>>::empty());
    }
    while i < schema.len()
        invariant
            i <= schema@.len(),
            pos <= bytes@.len(),
            dec_prefix(bytes@, schema@, i as nat) == Some(state_of(pos, fields@, pool@, seen@)),
            forall|off: nat| #[trigger] seen@.contains_key(off) ==> off < pos,
        decreases schema@.len() - i,
    {
        let ghost st = state_of(pos, fields@, pool@, seen@);
        let ghost pos0 = pos;
        let ghost seen0 = seen@;
        let ghost fv = fields@;
        let ghost pv = pool@;
        let ghost next = dec_field(bytes@, schema@[i as int], st);
        assert(dec_prefix(bytes@, schema@, (i + 1) as nat) == next);
        let ok: bool = match schema[i] {
            Shape::Int => {
                if bytes.len() < 8 || pos > bytes.len() - 8 {
                    false
                } else {
                    let v = read_u64(bytes, pos);
                    fields.push(Field::Int(v));
                    pos = pos + 8;
                    true
                }
            },
            Shape::Bytes => {
                match read_lp_at(bytes, pos) {
                    Some((t, p)) => {
                        fields.push(Field::Bytes(t));
                        pos = p;
                        true
                    },
                    None => false,
                }
            },
            Shape::Text => {
                match read_text_at(bytes, pos) {
                    Some((t, p)) => {
                        fields.push(Field::Text(t));
                        pos = p;
                        true
                    },
                    None => false,
                }
            },
            Shape::TextList => {
                if bytes.len() < 8 || pos > bytes.len() - 8 {
                    false
                } else {
                    let count = read_u64(bytes, pos);
                    match read_texts_at(bytes, pos + 8, count) {
                        Some((l, p)) => {
                            fields.push(Field::TextList(l));
                            pos = p;
                            true
                        },
                        None => false,
                    }
                }
            },
            Shape::Shared => {
                if pos >= bytes.len() {
                    false
                } else if bytes[pos] == SHARED_INLINE && pos + 1 < bytes.len() && bytes[pos + 1]
                    == SHARED_INLINE_SECOND {
                    match read_lp_at(bytes, pos + 2) {
                        Some((t, p)) => {
                            assert(p > pos);
                            let index = pool.len();
                            if seen.add_shared_ptr(pos, index).is_err() {
                                return Err(DeserializeError::DuplicateSharedPointer);
                            }
                            pool.push(t);
                            fields.push(Field::Shared(index));
                            pos = p;
                            true
                        },
                        None => false,
                    }
                } else if bytes[pos] == SHARED_BACKREF && bytes.len() >= 9 && pos <= bytes.len() - 9 {
                    let off = read_u64(bytes, pos + 1);
                    if off >= pos as u64 {
                        false
                    } else {
                        match seen.get_shared_ptr(off as usize) {
                            Some(index) => {
                                fields.push(Field::Shared(index));
                                pos = pos + 9;
                                true
                            },
                            None => false,
                        }
                    }
                } else {
                    false
                }
            },
            Shape::Skip => {
                fields.push(Field::Skip(0));
                true
            },
        };
        if !ok {
            assert(next is None);
            proof {
                lemma_dec_prefix_stays_failed(bytes@, schema@, (i + 1) as nat, schema@.len());
            }
            return Err(DeserializeError::CheckBytesError);
        }
        assert(next == Some(state_of(pos, fields@, pool@, seen@))) by {
            assert(fields@.map_values(|f: Field| f@) =~= fv.map_values(|f: Field| f@).push(
                fields@.last()@,
            ));
            assert(pool@.map_values(|b: Vec<u8>| b@) =~= pv.map_values(|b: Vec<u8>| b@)
                || pool@.map_values(|b: Vec<u8>| b@) =~= pv.map_values(|b: Vec<u8>| b@).push(
                pool@.last()@,
            ));
        }
        assert(pos >= pos0);
        assert(seen@ == seen0 || (pos > pos0 && seen@ == seen0.insert(pos0 as nat, seen@[pos0 as nat])));
        assert forall|off: nat| #[trigger] seen@.contains_key(off) implies off < pos by {
            if seen0.contains_key(off) {
            }
        }
        i = i + 1;
    }
    if pos != bytes.len() {
        return Err(DeserializeError::CheckBytesError);
    }
    let g = Graph { shared: pool, fields };
    Ok(g)
}

/// Validates `bytes` as an archive of a record with the given schema and
/// restores the record, with each skipped field as `Skip(0)`. The last byte
/// must be the check byte of the rest, and the rest a well-formed body; any
/// other byte sequence gives `CheckBytesError`.
pub fn check_archive(bytes: &[u8], schema: &[Shape]) -> (r: Result<Graph, DeserializeError>)
    ensures
        match decode(bytes@, schema@) {
            Some(g) => match r {
                Ok(v) => v@ == g,
                Err(_) => false,
            },
            None => r == Err::<Graph, DeserializeError>(DeserializeError::CheckBytesError),
        },
{
    let n = bytes.len();
    if n == 0 {
        return Err(DeserializeError::CheckBytesError);
    }
    let body = copy_range(bytes, 0, n - 1);
    assert(body@ =~= bytes@.drop_last());
    if check_byte_of(body.as_slice()) != bytes[n - 1] {
        return Err(DeserializeError::CheckBytesError);
    }
    check_body(body.as_slice(), schema)
}

/// Reads a record of the given schema back from an archive. The bytes are
/// validated in full first; on failure the context is not touched. Then the
/// context rebuilds each skipped field, in field order, once each, and the
/// first error it gives ends the call. Every other field, and the pool, are
/// exactly what the archive holds.
pub fn from_bytes<C: SkipContext>(bytes: &[u8], schema: &[Shape], ctx: &mut C) -> (r: Result<
    Graph,
    DeserializeError,
>)
    ensures
        match decode(bytes@, schema@) {
            None => r == Err::<Graph, DeserializeError>(DeserializeError::CheckBytesError)
                && *final(ctx) == *old(ctx),
            Some(d) => {
                let (res, c) = fill_skips(*old(ctx), d, 0);
                &&& *final(ctx) == c
                &&& match (r, res) {
                    (Ok(g), Ok(e)) => g@ == e,
                    (Err(x), Err(y)) => x == y,
                    _ => false,
                }
            },
        },
{
    let mut g = match check_archive(bytes, schema) {
        Ok(g) => g,
        Err(e) => return Err(e),
    };
    let ghost d = g@;
    let mut i: usize = 0;
    while i < g.fields.len()
        invariant
            i <= g.fields@.len(),
            g@.fields.len() == d.fields.len(),
            fill_skips(*old(ctx), d, 0) == fill_skips(*ctx, g@, i as nat),
            decode(bytes@, schema@) == Some(d),
        decreases g.fields@.len() - i,
    {
        let skipped = match &g.fields[i] {
            Field::Skip(_) => true,
            _ => false,
        };
        assert(g@.fields[i as int] == g.fields@[i as int]@);
        let ghost c0 = *ctx;
        if skipped {
            assert(g@.fields[i as int] is Skip);
            match ctx.reconstruct(i) {
                Ok(v) => {
                    let ghost before = g@;
                    g.fields.set(i, Field::Skip(v));
                    assert(g@ =~= GraphV {
                        shared: before.shared,
                        fields: before.fields.update(i as int, FieldV::Skip(v)),
                    }) by {
                        assert(g@.fields =~= before.fields.update(i as int, FieldV::Skip(v)));
                    }
                },
                Err(e) => {
                    assert(fill_skips(c0, g@, i as nat) == (
                        Err::<GraphV, DeserializeError>(e),
                        *ctx,
                    ));
                    return Err(e);
                },
            }
        } else {
            assert(!(g@.fields[i as int] is Skip));
        }
        i = i + 1;
    }
    Ok(g)
}

} // verus!
