use vstd::prelude::*;

use crate::error::{DeserializeError, SerializeError};
use crate::model::{encode, Field, FieldV};
use crate::polymorphic::{dyn_decode, dyn_record, pack_dyn, DynArchive, DynPayload};
use crate::registry::{DynReconstruct, Registry};

verus! {

/// A type with a canonical text form that it can be rebuilt from.
pub trait AsRefStrConverter: Sized {
    /// The text that stands for the value.
    spec fn text_of(&self) -> Seq<char>;

    fn as_str(&self) -> (r: &str)
        ensures
            r@ == self.text_of(),
    ;

    fn from_str(s: &str) -> (r: Self)
        ensures
            r.text_of() == s@,
    ;
}

impl AsRefStrConverter for String {
    open spec fn text_of(&self) -> Seq<char> {
        self@
    }

    fn as_str(&self) -> (r: &str) {
        self.as_str()
    }

    fn from_str(s: &str) -> (r: Self) {
        s.to_owned()
    }
}

/// The string-like adapter: a field archived as its text.
pub struct AsRefStr;

impl AsRefStr {
    pub fn serialize_with<T: AsRefStrConverter>(value: &T) -> (r: Field)
        ensures
            r@ == FieldV::Text(value.text_of()),
    {
        Field::Text(value.as_str().to_owned())
    }

    /// Rebuilds the value from an archived text field; any other field is
    /// not of this adapter's shape.
    pub fn deserialize_with<T: AsRefStrConverter>(field: &Field) -> (r: Result<T, DeserializeError>)
        ensures
            match field@ {
                FieldV::Text(t) => match r {
                    Ok(v) => v.text_of() == t,
                    Err(_) => false,
                },
                _ => r == Err::<T, DeserializeError>(DeserializeError::CheckBytesError),
            },
    {
        match field {
            Field::Text(s) => Ok(T::from_str(s.as_str())),
            _ => Err(DeserializeError::CheckBytesError),
        }
    }
}

/// The sequence-of-string-like adapter: each element archived as its text.
pub struct AsVec;

impl AsVec {
    pub fn serialize_with<T: AsRefStrConverter>(items: &Vec<T>) -> (r: Field)
        ensures
            r@ == FieldV::TextList(items@.map_values(|x: T| x.text_of())),
    {
        let mut texts: Vec<String> = Vec::new();
        let mut i: usize = 0;
        while i < items.len()
            invariant
                i <= items@.len(),
                texts@.len() == i,
                texts@.map_values(|s: String| s@) == items@.subrange(0, i as int).map_values(
                    |x: T| x.text_of(),
                ),
            decreases items@.len() - i,
        {
            let ghost prev = texts@;
            let t = items[i].as_str().to_owned();
            assert(t@ == items@[i as int].text_of());
            texts.push(t);
            proof {
                let a = texts@.map_values(|s: String| s@);
                let b = items@.subrange(0, i + 1).map_values(|x: T| x.text_of());
                let pa = prev.map_values(|s: String| s@);
                let pb = items@.subrange(0, i as int).map_values(|x: T| x.text_of());
                assert forall|k: int| 0 <= k < i + 1 implies a[k] == b[k] by {
                    if k < i {
                        assert(a[k] == pa[k]);
                        assert(b[k] == pb[k]);
                    }
                }
                assert(a =~= b);
            }
            i = i + 1;
        }
        assert(items@.subrange(0, i as int) =~= items@);
        Field::TextList(texts)
    }

    /// Rebuilds the elements from an archived text list, in archive order.
    pub fn deserialize_with<T: AsRefStrConverter>(field: &Field) -> (r: Result<
        Vec<T>,
        DeserializeError,
    >)
        ensures
            match field@ {
                FieldV::TextList(l) => match r {
                    Ok(v) => v@.map_values(|x: T| x.text_of()) == l,
                    Err(_) => false,
                },
                _ => r == Err::<Vec<T>, DeserializeError>(DeserializeError::CheckBytesError),
            },
    {
        match field {
            Field::TextList(texts) => {
                let mut out: Vec<T> = Vec::new();
                let mut i: usize = 0;
                while i < texts.len()
                    invariant
                        i <= texts@.len(),
                        out@.len() == i,
                        out@.map_values(|x: T| x.text_of()) == texts@.subrange(
                            0,
                            i as int,
                        ).map_values(|s: String| s@),
                    decreases texts@.len() - i,
                {
                    let ghost prev = out@;
                    let v = T::from_str(texts[i].as_str());
                    assert(v.text_of() == texts@[i as int]@);
                    out.push(v);
                    proof {
                        let a = out@.map_values(|x: T| x.text_of());
                        let b = texts@.subrange(0, i + 1).map_values(|s: String| s@);
                        let pa = prev.map_values(|x: T| x.text_of());
                        let pb = texts@.subrange(0, i as int).map_values(|s: String| s@);
                        assert forall|k: int| 0 <= k < i + 1 implies a[k] == b[k] by {
                            if k < i {
                                assert(a[k] == pa[k]);
                                assert(b[k] == pb[k]);
                            }
                        }
                        assert(a =~= b);
                    }
                    i = i + 1;
                }
                assert(texts@.subrange(0, i as int) =~= texts@);
                Ok(out)
            },
            _ => Err(DeserializeError::CheckBytesError),
        }
    }
}

/// The polymorphic-payload adapter: the value's tag and its own archive,
/// kept as one opaque byte field.
pub struct AsDyn;

impl AsDyn {
    /// Archives a polymorphic value: asks it for its tag and for its own
    /// archive, written with `ctx`, and keeps the pair as one byte field. An
    /// error of the value's own archiving is handed back as it is.
    pub fn serialize_with<C, T: DynArchive<C>>(value: &T, ctx: &mut C) -> (r: Result<
        Field,
        SerializeError,
    >)
        ensures
            match value.archived(*old(ctx)) {
                (Ok(b), c) => match r {
                    Ok(f) => f@ == FieldV::Bytes(encode(dyn_record(value.tag_of(), b)))
                        && *final(ctx) == c,
                    Err(_) => false,
                },
                (Err(e), c) => r == Err::<Field, SerializeError>(e) && *final(ctx) == c,
            },
    {
        let data = match value.dyn_to_bytes(ctx) {
            Ok(b) => b,
            Err(e) => return Err(e),
        };
        let tag = value.dyn_tag();
        Ok(Field::Bytes(pack_dyn(&tag, &data)))
    }

    /// Archives a payload whose tag and own archive are already at hand.
    pub fn serialize_payload(payload: &DynPayload) -> (r: Field)
        ensures
            r@ == FieldV::Bytes(encode(dyn_record(payload.tag@, payload.data@))),
    {
        Field::Bytes(pack_dyn(&payload.tag, &payload.data))
    }

    /// Rebuilds a polymorphic value from an archived payload field: the
    /// function registered for the payload's tag is called once on the
    /// concrete type's own archive with `ctx`, and its result handed back.
    /// A field of another shape, or a malformed payload, gives
    /// `CheckBytesError`; an unknown tag gives `UnsupportedType`; in those
    /// cases the context is not touched.
    pub fn deserialize_with<F, C, T>(registry: &Registry<F>, field: &Field, ctx: &mut C) -> (r:
        Result<T, DeserializeError>) where F: DynReconstruct<C, T>
        ensures
            match field@ {
                FieldV::Bytes(b) => match dyn_decode(b) {
                    None => r == Err::<T, DeserializeError>(DeserializeError::CheckBytesError)
                        && *final(ctx) == *old(ctx),
                    Some((tag, data)) => if exists|i: int|
                        0 <= i < registry.entries().len() && #[trigger] registry.entries()[i].tag@
                            == tag {
                        exists|d: &[u8]|
                            d@ == data && forall|i: int|
                                0 <= i < registry.entries().len() && registry.entries()[i].tag@ == tag
                                    ==> (r, *final(ctx))
                                    == #[trigger] registry.entries()[i].reconstruct.rebuilt(
                                    d,
                                    *old(ctx),
                                )
                    } else {
                        r == Err::<T, DeserializeError>(DeserializeError::UnsupportedType)
                            && *final(ctx) == *old(ctx)
                    },
                },
                _ => r == Err::<T, DeserializeError>(DeserializeError::CheckBytesError)
                    && *final(ctx) == *old(ctx),
            },
    {
        match field {
            Field::Bytes(b) => registry.deserialize_dyn(b.as_slice(), ctx),
            _ => Err(DeserializeError::CheckBytesError),
        }
    }
}

/// The skip adapter: the field takes no bytes, and on read its value comes
/// from the context (see `SkipContext`).
pub struct SkipWithDeserialize;

impl SkipWithDeserialize {
    pub fn serialize_with(value: u64) -> (r: Field)
        ensures
            r@ == FieldV::Skip(value),
    {
        Field::Skip(value)
    }
}

} // verus!
