use vstd::prelude::*;

use crate::deserialize::check_archive;
use crate::error::{DeserializeError, SerializeError};
use crate::model::{decode, encode, Field, FieldV, Graph, GraphV, Shape};
use crate::serialize::to_bytes;

verus! {

/// A polymorphic value as archived: the stable tag of its concrete type and
/// the archive that type produced of itself.
pub struct DynPayload {
    pub tag: String,
    pub data: Vec<u8>,
}

/// A polymorphic value that archives itself: the stable tag of its concrete
/// type, and its own archive written with the caller's context.
pub trait DynArchive<C> {
    /// The stable tag of the value's concrete type.
    spec fn tag_of(&self) -> Seq<char>;

    /// The value's own archive written with context `c` (or why it could not
    /// be written), and the context afterwards.
    spec fn archived(&self, c: C) -> (Result<Seq<u8>, SerializeError>, C);

    fn dyn_tag(&self) -> (r: String)
        ensures
            r@ == self.tag_of(),
    ;

    fn dyn_to_bytes(&self, ctx: &mut C) -> (r: Result<Vec<u8>, SerializeError>)
        ensures
            match (r, self.archived(*old(ctx))) {
                (Ok(b), (Ok(s), c)) => b@ == s && *final(ctx) == c,
                (Err(e), (Err(x), c)) => e == x && *final(ctx) == c,
                _ => false,
            },
    ;
}

/// The (tag, bytes) pair as a record of its own.
pub open spec fn dyn_record(tag: Seq<char>, data: Seq<u8>) -> GraphV {
    GraphV { shared: Seq::empty(), fields: seq![FieldV::Text(tag), FieldV::Bytes(data)] }
}

/// The schema of that record.
pub open spec fn dyn_schema() -> Seq<Shape> {
    seq![Shape::Text, Shape::Bytes]
}

/// The (tag, bytes) pair that `b` holds, if it is a well-formed pair archive.
pub open spec fn dyn_decode(b: Seq<u8>) -> Option<(Seq<char>, Seq<u8>)> {
    match decode(b, dyn_schema()) {
        Some(g) => Some((g.fields[0]->Text_0, g.fields[1]->Bytes_0)),
        None => None,
    }
}

/// Copies a byte vector.
fn copy_bytes(b: &Vec<u8>) -> (r: Vec<u8>)
    ensures
        r@ == b@,
{
    let mut out: Vec<u8> = Vec::new();
    let mut i: usize = 0;
    while i < b.len()
        invariant
            i <= b@.len(),
            out@ == b@.subrange(0, i as int),
        decreases b@.len() - i,
    {
        out.push(b[i]);
        i = i + 1;
        assert(out@ =~= b@.subrange(0, i as int));
    }
    assert(b@.subrange(0, i as int) =~= b@);
    out
}

/// Archives a polymorphic value as the pair of its tag and its own archive,
/// written with the same engine.
pub fn pack_dyn(tag: &String, data: &Vec<u8>) -> (r: Vec<u8>)
    ensures
        r@ == encode(dyn_record(tag@, data@)),
{
    let fields: Vec<Field> = vec![Field::Text(tag.clone()), Field::Bytes(copy_bytes(data))];
    let g = Graph { shared: Vec::new(), fields };
    assert(g@ =~= dyn_record(tag@, data@)) by {
        assert(g@.fields =~= dyn_record(tag@, data@).fields);
        assert(g@.shared =~= Seq::<Seq<u8>>::empty());
    }
    match to_bytes(&g) {
        Ok(b) => b,
        Err(_) => Vec::new(),
    }
}

/// Reads back the pair that `pack_dyn` writes; anything else is refused.
pub fn unpack_dyn(bytes: &[u8]) -> (r: Result<DynPayload, DeserializeError>)
    ensures
        match dyn_decode(bytes@) {
            Some((tag, data)) => match r {
                Ok(p) => p.tag@ == tag && p.data@ == data,
                Err(_) => false,
            },
            None => r == Err::<DynPayload, DeserializeError>(DeserializeError::CheckBytesError),
        },
{
    let schema: Vec<Shape> = vec![Shape::Text, Shape::Bytes];
    assert(schema@ =~= dyn_schema());
    let mut g = match check_archive(bytes, schema.as_slice()) {
        Ok(g) => g,
        Err(e) => return Err(e),
    };
    proof {
        lemma_dyn_decode_shapes(bytes@);
    }
    let second = g.fields.pop();
    let first = g.fields.pop();
    match (first, second) {
        (Some(Field::Text(tag)), Some(Field::Bytes(data))) => Ok(DynPayload { tag, data }),
        _ => Err(DeserializeError::CheckBytesError),
    }
}

/// A decoded pair record has a text then a byte field.
proof fn lemma_dyn_decode_shapes(b: Seq<u8>)
    requires
        decode(b, dyn_schema()) is Some,
    ensures
        ({
            let g = decode(b, dyn_schema())->0;
            &&& g.fields.len() == 2
            &&& g.fields[0] is Text
            &&& g.fields[1] is Bytes
        }),
{
    reveal_with_fuel(crate::model::dec_prefix, 3);
}

/// A (tag, bytes) pair reads back as itself. So a polymorphic field that
/// `AsDyn::serialize_with` wrote carries its tag back to the reader, and a
/// tag that no registration claims gives `UnsupportedType` there.
pub proof fn lemma_dyn_pair_round_trip(tag: Seq<char>, data: Seq<u8>)
    requires
        encode(dyn_record(tag, data)).len() <= u64::MAX,
    ensures
        dyn_decode(encode(dyn_record(tag, data))) == Some((tag, data)),
{
    let g = dyn_record(tag, data);
    assert(crate::model::handles_valid(g));
    crate::laws::lemma_round_trip(g);
    assert(crate::model::schema_of(g) =~= dyn_schema());
    let r = decode(encode(g), dyn_schema())->0;
    assert(crate::laws::field_restored(g, r, 0));
    assert(crate::laws::field_restored(g, r, 1));
}

} // verus!
