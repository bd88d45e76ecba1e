use vstd::prelude::*;
use vstd::utf8::{decode_utf8, encode_utf8, valid_utf8};

use crate::layout::{le_bytes, le_value};

verus! {

/// The adapter that a field is bound to. A record's schema lists one per field
/// and fixes how the field is laid out in an archive.
#[derive(Debug, Clone, Copy, PartialEq, Eq, Structural)]
pub enum Shape {
    /// A plain integer, written directly.
    Int,
    /// An opaque byte sequence (the archived form of a polymorphic payload).
    Bytes,
    /// A string-like value, archived as its text.
    Text,
    /// A collection of string-like values, archived element by element.
    TextList,
    /// A reference to a shared value, deduplicated within one archive.
    Shared,
    /// A field that is never archived and is rebuilt from the context on read.
    Skip,
}

/// One field of a record, as held in memory.
#[derive(Debug, Clone)]
pub enum Field {
    Int(u64),
    Bytes(Vec<u8>),
    Text(String),
    TextList(Vec<String>),
    /// The handle (index in the record's pool) of a shared value.
    Shared(usize),
    /// A run-time-only value that no archive holds.
    Skip(u64),
}

/// A record: its fields, and the pool of values that its `Shared` fields
/// refer to. Two fields with one handle own the same value.
#[derive(Debug, Clone)]
pub struct Graph {
    pub shared: Vec<Vec<u8>>,
    pub fields: Vec<Field>,
}

/// The mathematical value of a `Field`.
pub enum FieldV {
    Int(u64),
    Bytes(Seq<u8>),
    Text(Seq<char>),
    TextList(Seq<Seq<char>>),
    Shared(nat),
    Skip(u64),
}

/// The mathematical value of a `Graph`.
pub struct GraphV {
    pub shared: Seq<Seq<u8>>,
    pub fields: Seq<FieldV>,
}

impl View for Field {
    type V = FieldV;

    open spec fn view(&self) -> FieldV {
        match self {
            Field::Int(v) => FieldV::Int(*v),
            Field::Bytes(b) => FieldV::Bytes(b@),
            Field::Text(s) => FieldV::Text(s@),
            Field::TextList(l) => FieldV::TextList(l@.map_values(|s: String| s@)),
            Field::Shared(h) => FieldV::Shared(*h as nat),
            Field::Skip(v) => FieldV::Skip(*v),
        }
    }
}

impl View for Graph {
    type V = GraphV;

    open spec fn view(&self) -> GraphV {
        GraphV {
            shared: self.shared@.map_values(|b: Vec<u8>| b@),
            fields: self.fields@.map_values(|f: Field| f@),
        }
    }
}

pub open spec fn shape_of(f: FieldV) -> Shape {
    match f {
        FieldV::Int(_) => Shape::Int,
        FieldV::Bytes(_) => Shape::Bytes,
        FieldV::Text(_) => Shape::Text,
        FieldV::TextList(_) => Shape::TextList,
        FieldV::Shared(_) => Shape::Shared,
        FieldV::Skip(_) => Shape::Skip,
    }
}

/// The schema that a record's fields follow.
pub open spec fn schema_of(g: GraphV) -> Seq<Shape> {
    g.fields.map_values(|f: FieldV| shape_of(f))
}

/// Every `Shared` field names a value of the pool.
pub open spec fn handles_valid(g: GraphV) -> bool {
    forall|i: int|
        0 <= i < g.fields.len() ==> (#[trigger] g.fields[i] is Shared ==> g.fields[i]->Shared_0
            < g.shared.len())
}

/// Byte sequence prefixed by its length.
pub open spec fn lp(b: Seq<u8>) -> Seq<u8> {
    le_bytes(b.len() as u64) + b
}

/// The elements of a text list, each as its length-prefixed UTF-8 bytes.
pub open spec fn enc_texts(l: Seq<Seq<char>>) -> Seq<u8>
    decreases l.len(),
{
    if l.len() == 0 {
        Seq::empty()
    } else {
        enc_texts(l.drop_last()) + lp(encode_utf8(l.last()))
    }
}

/// What the writer has produced so far: the bytes, and for each shared
/// handle already emitted, the position of its first emission.
pub struct EncState {
    pub out: Seq<u8>,
    pub table: Map<nat, nat>,
}

/// First byte of a shared value written in full.
pub const SHARED_INLINE: u8 = 0;

/// Second byte of a shared value written in full. With it a full copy takes
/// at least ten bytes, one more than a back-reference, so sharing always
/// saves space, even for an empty value.
pub const SHARED_INLINE_SECOND: u8 = 0xFF;

/// Marks a back-reference to a shared value written earlier.
pub const SHARED_BACKREF: u8 = 1;

/// How one field extends the archive.
pub open spec fn enc_field(shared: Seq<Seq<u8>>, f: FieldV, st: EncState) -> EncState {
    match f {
        FieldV::Int(v) => EncState { out: st.out + le_bytes(v), table: st.table },
        FieldV::Bytes(b) => EncState { out: st.out + lp(b), table: st.table },
        FieldV::Text(s) => EncState { out: st.out + lp(encode_utf8(s)), table: st.table },
        FieldV::TextList(l) => EncState {
            out: st.out + le_bytes(l.len() as u64) + enc_texts(l),
            table: st.table,
        },
        FieldV::Shared(h) => if st.table.contains_key(h) {
            EncState {
                out: st.out + seq![SHARED_BACKREF] + le_bytes(st.table[h] as u64),
                table: st.table,
            }
        } else {
            EncState {
                out: st.out + seq![SHARED_INLINE, SHARED_INLINE_SECOND] + lp(shared[h as int]),
                table: st.table.insert(h, st.out.len()),
            }
        },
        FieldV::Skip(_) => st,
    }
}

pub open spec fn enc_prefix(g: GraphV, n: nat) -> EncState
    decreases n,
{
    if n == 0 {
        EncState { out: Seq::empty(), table: Map::empty() }
    } else {
        enc_field(g.shared, g.fields[n - 1], enc_prefix(g, (n - 1) as nat))
    }
}

/// The body of a record's archive: its fields, one after another.
pub open spec fn encode_body(g: GraphV) -> Seq<u8> {
    enc_prefix(g, g.fields.len()).out
}

/// What the reader has restored so far: its position in the bytes, the
/// fields, the pool, and for each offset of a shared value its pool index.
pub struct DecState {
    pub pos: nat,
    pub fields: Seq<FieldV>,
    pub pool: Seq<Seq<u8>>,
    pub seen: Map<nat, nat>,
}

/// A length-prefixed byte sequence at `pos`, and the position after it.
pub open spec fn read_lp(b: Seq<u8>, pos: nat) -> Option<(Seq<u8>, nat)> {
    if pos + 8 <= b.len() {
        let n = le_value(b.subrange(pos as int, pos + 8int)) as nat;
        if pos + 8 + n <= b.len() {
            Some((b.subrange(pos + 8int, pos + 8int + n), (pos + 8 + n) as nat))
        } else {
            None
        }
    } else {
        None
    }
}

/// A length-prefixed UTF-8 text at `pos`, and the position after it.
pub open spec fn read_text(b: Seq<u8>, pos: nat) -> Option<(Seq<char>, nat)> {
    match read_lp(b, pos) {
        Some((t, p)) => if valid_utf8(t) {
            Some((decode_utf8(t), p))
        } else {
            None
        },
        None => None,
    }
}

/// `k` texts one after another from `pos`.
pub open spec fn dec_texts(b: Seq<u8>, pos: nat, k: nat) -> Option<(Seq<Seq<char>>, nat)>
    decreases k,
{
    if k == 0 {
        Some((Seq::empty(), pos))
    } else {
        match dec_texts(b, pos, (k - 1) as nat) {
            Some((l, p)) => match read_text(b, p) {
                Some((t, q)) => Some((l.push(t), q)),
                None => None,
            },
            None => None,
        }
    }
}

/// Extends a reader state by one field of shape `s`.
pub open spec fn with_field(st: DecState, f: FieldV, pos: nat) -> DecState {
    DecState { pos, fields: st.fields.push(f), pool: st.pool, seen: st.seen }
}

/// How the reader takes one field of shape `s`.
pub open spec fn dec_field(b: Seq<u8>, s: Shape, st: DecState) -> Option<DecState> {
    let pos = st.pos;
    match s {
        Shape::Int => if pos + 8 <= b.len() {
            Some(with_field(st, FieldV::Int(le_value(b.subrange(pos as int, pos + 8int))), pos + 8))
        } else {
            None
        },
        Shape::Bytes => match read_lp(b, pos) {
            Some((t, p)) => Some(with_field(st, FieldV::Bytes(t), p)),
            None => None,
        },
        Shape::Text => match read_text(b, pos) {
            Some((t, p)) => Some(with_field(st, FieldV::Text(t), p)),
            None => None,
        },
        Shape::TextList => if pos + 8 <= b.len() {
            match dec_texts(b, pos + 8, le_value(b.subrange(pos as int, pos + 8int)) as nat) {
                Some((l, p)) => Some(with_field(st, FieldV::TextList(l), p)),
                None => None,
            }
        } else {
            None
        },
        Shape::Shared => if pos + 1 < b.len() && b[pos as int] == SHARED_INLINE && b[pos + 1int]
            == SHARED_INLINE_SECOND {
            match read_lp(b, pos + 2) {
                Some((t, p)) => Some(
                    DecState {
                        pos: p,
                        fields: st.fields.push(FieldV::Shared(st.pool.len())),
                        pool: st.pool.push(t),
                        seen: st.seen.insert(pos, st.pool.len()),
                    },
                ),
                None => None,
            }
        } else if pos < b.len() && b[pos as int] == SHARED_BACKREF && pos + 9 <= b.len() {
            let off = le_value(b.subrange(pos + 1int, pos + 9int)) as nat;
            if st.seen.contains_key(off) {
                Some(with_field(st, FieldV::Shared(st.seen[off]), pos + 9))
            } else {
                None
            }
        } else {
            None
        },
        Shape::Skip => Some(with_field(st, FieldV::Skip(0), pos)),
    }
}

pub open spec fn dec_prefix(b: Seq<u8>, schema: Seq<Shape>, n: nat) -> Option<DecState>
    decreases n,
{
    if n == 0 {
        Some(DecState { pos: 0, fields: Seq::empty(), pool: Seq::empty(), seen: Map::empty() })
    } else {
        match dec_prefix(b, schema, (n - 1) as nat) {
            Some(st) => dec_field(b, schema[n - 1], st),
            None => None,
        }
    }
}

/// The record that `b` archives under `schema`, if `b` is well formed: every
/// field in bounds, texts valid UTF-8, back-references to earlier shared
/// values only, and no byte left over. Skipped fields read as `Skip(0)`.
pub open spec fn decode_body(b: Seq<u8>, schema: Seq<Shape>) -> Option<GraphV> {
    match dec_prefix(b, schema, schema.len()) {
        Some(st) => if st.pos == b.len() {
            Some(GraphV { shared: st.pool, fields: st.fields })
        } else {
            None
        },
        None => None,
    }
}

/// The sum of the bytes of `b`.
pub open spec fn byte_sum(b: Seq<u8>) -> int
    decreases b.len(),
{
    if b.len() == 0 {
        0
    } else {
        byte_sum(b.drop_last()) + b.last() as int
    }
}

/// The check byte of an archive body: its byte sum modulo 256. Any change
/// of one body byte changes it.
pub open spec fn check_byte(b: Seq<u8>) -> u8 {
    (byte_sum(b) % 256) as u8
}

/// The archive of a record: its body, then the body's check byte.
pub open spec fn encode(g: GraphV) -> Seq<u8> {
    encode_body(g).push(check_byte(encode_body(g)))
}

/// The record that `b` archives under `schema`: the last byte must be the
/// check byte of the rest, and the rest a well-formed body.
pub open spec fn decode(b: Seq<u8>, schema: Seq<Shape>) -> Option<GraphV> {
    if b.len() > 0 && check_byte(b.drop_last()) == b.last() {
        decode_body(b.drop_last(), schema)
    } else {
        None
    }
}

} // verus!
