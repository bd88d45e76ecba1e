use rspack_cacheable::{
    from_bytes, CurrentHandle, Graph, Shape,
    pack_dyn, to_bytes, unpack_dyn, AsDyn, AsRefStr, AsVec, BuildMeta, BuildMetaDefaultObject,
    BuildMetaExportsType, BuildMetaReader, DeserializeError, DynPayload, DynReconstruct,
    ExportsArgument, Field, ModuleArgument, Registration, Registry, RegistryError,
    SkipWithDeserialize,
};

/// Rebuilds a length and logs each call in the context.
struct ByLength;

impl DynReconstruct<Vec<usize>, usize> for ByLength {
    fn rebuilt(&self, bytes: &[u8], c: Vec<usize>) -> (Result<usize, DeserializeError>, Vec<usize>) {
        let mut c = c;
        c.push(bytes.len());
        if bytes.is_empty() {
            (Err(DeserializeError::CheckBytesError), c)
        } else {
            (Ok(bytes.len()), c)
        }
    }

    fn reconstruct(&self, bytes: &[u8], ctx: &mut Vec<usize>) -> Result<usize, DeserializeError> {
        let (r, c) = self.rebuilt(bytes, std::mem::take(ctx));
        *ctx = c;
        r
    }
}

type Rebuild = fn(&[u8]) -> usize;

fn first_byte(b: &[u8]) -> usize {
    b[0] as usize
}

fn length(b: &[u8]) -> usize {
    b.len()
}

fn reg(tag: &str, f: Rebuild) -> Registration<Rebuild> {
    Registration { tag: tag.to_string(), reconstruct: f }
}

#[test]
fn duplicate_tag_fails_build() {
    let make = || vec![reg("A", first_byte), reg("B", length), reg("A", length), reg("B", first_byte)];
    let e1 = Registry::build(make()).err().unwrap();
    let e2 = Registry::build(make()).err().unwrap();
    assert_eq!(e1, RegistryError::DuplicateTag(2));
    assert_eq!(e1, e2);
}

#[test]
fn distinct_tags_build_and_dispatch() {
    let r = Registry::build(vec![reg("A", first_byte), reg("B", length)]).ok().unwrap();
    let a = pack_dyn(&"A".to_string(), &vec![9, 9, 9]);
    let b = pack_dyn(&"B".to_string(), &vec![9, 9, 9]);
    let (fa, da) = r.resolve(&a).unwrap();
    let (fb, db) = r.resolve(&b).unwrap();
    assert_eq!(fa(&da), 9);
    assert_eq!(fb(&db), 3);
    assert!(r.lookup(&"C".to_string()).is_none());
}

#[test]
fn unknown_tag_is_unsupported_type() {
    let r = Registry::build(vec![reg("A", first_byte)]).ok().unwrap();
    let payload = pack_dyn(&"Missing".to_string(), &vec![1]);
    assert_eq!(r.resolve(&payload).err().unwrap(), DeserializeError::UnsupportedType);
    assert_eq!(r.resolve(&payload).err().unwrap(), DeserializeError::UnsupportedType);
}

#[test]
fn malformed_payload_is_check_bytes_error() {
    let r = Registry::build(vec![reg("A", first_byte)]).ok().unwrap();
    assert_eq!(r.resolve(&[1, 2, 3]).err().unwrap(), DeserializeError::CheckBytesError);
}

#[test]
fn payload_pair_round_trips() {
    let bytes = pack_dyn(&"NormalModule".to_string(), &vec![1, 2]);
    let mut expect: Vec<u8> = vec![12, 0, 0, 0, 0, 0, 0, 0];
    expect.extend_from_slice(b"NormalModule");
    expect.extend_from_slice(&[2, 0, 0, 0, 0, 0, 0, 0, 1, 2]);
    let sum: u32 = expect.iter().map(|b| *b as u32).sum();
    expect.push((sum % 256) as u8);
    assert_eq!(bytes, expect);
    let p = unpack_dyn(&bytes).unwrap();
    assert_eq!(p.tag, "NormalModule");
    assert_eq!(p.data, vec![1, 2]);
}

#[test]
fn dyn_adapter_calls_registered_function_with_context() {
    let r = Registry::build(vec![Registration { tag: "A".to_string(), reconstruct: ByLength }])
        .ok()
        .unwrap();
    let mut log: Vec<usize> = Vec::new();
    let field = AsDyn::serialize_payload(&DynPayload { tag: "A".to_string(), data: vec![5, 6] });
    assert_eq!(AsDyn::deserialize_with(&r, &field, &mut log), Ok(2));
    assert_eq!(log, vec![2]);
    let empty = AsDyn::serialize_payload(&DynPayload { tag: "A".to_string(), data: vec![] });
    assert_eq!(AsDyn::deserialize_with(&r, &empty, &mut log), Err(DeserializeError::CheckBytesError));
    assert_eq!(log, vec![2, 0]);
    let unknown = AsDyn::serialize_payload(&DynPayload { tag: "B".to_string(), data: vec![1] });
    assert_eq!(AsDyn::deserialize_with(&r, &unknown, &mut log), Err(DeserializeError::UnsupportedType));
    assert_eq!(
        AsDyn::deserialize_with(&r, &Field::Int(1), &mut log),
        Err(DeserializeError::CheckBytesError)
    );
    assert_eq!(log, vec![2, 0]);
}

#[test]
fn build_meta_as_polymorphic_value() {
    let m = BuildMeta {
        strict_harmony_module: false,
        has_top_level_await: true,
        esm: true,
        exports_type: BuildMetaExportsType::Namespace,
        default_object: BuildMetaDefaultObject::Redirect,
        module_argument: ModuleArgument::Module,
        exports_argument: ExportsArgument::WebpackExports,
        side_effect_free: None,
    };
    let r = Registry::build(vec![Registration { tag: "BuildMeta".to_string(), reconstruct: BuildMetaReader }])
        .ok()
        .unwrap();
    let data = to_bytes(&m.to_graph()).unwrap();
    let payload = pack_dyn(&"BuildMeta".to_string(), &data);
    assert_eq!(r.deserialize_dyn(&payload, &mut ()), Ok(m));
    let field = AsDyn::serialize_with(&m, &mut ()).unwrap();
    assert!(matches!(&field, Field::Bytes(b) if *b == payload));
    assert_eq!(AsDyn::deserialize_with(&r, &field, &mut ()), Ok(m));
    let bad = pack_dyn(&"BuildMeta".to_string(), &data[..63].to_vec());
    assert_eq!(r.deserialize_dyn(&bad, &mut ()), Err::<BuildMeta, _>(DeserializeError::CheckBytesError));
}

#[test]
fn string_adapters_round_trip() {
    let f = AsRefStr::serialize_with(&"./index.js".to_string());
    assert!(matches!(&f, Field::Text(s) if s == "./index.js"));
    let back: String = AsRefStr::deserialize_with(&f).unwrap();
    assert_eq!(back, "./index.js");
    assert!(AsRefStr::deserialize_with::<String>(&Field::Int(0)).is_err());

    let items = vec!["a".to_string(), "b".to_string()];
    let f = AsVec::serialize_with(&items);
    let back: Vec<String> = AsVec::deserialize_with(&f).unwrap();
    assert_eq!(back, items);
    assert_eq!(
        AsVec::deserialize_with::<String>(&Field::Skip(0)).err().unwrap(),
        DeserializeError::CheckBytesError
    );
}

#[test]
fn skip_adapter_marks_field() {
    assert!(matches!(SkipWithDeserialize::serialize_with(7), Field::Skip(7)));
}

#[test]
fn unregistered_tag_in_a_record_is_unsupported_type() {
    let r = Registry::build(vec![Registration { tag: "BuildMeta".to_string(), reconstruct: BuildMetaReader }])
        .ok()
        .unwrap();
    let g = Graph {
        shared: vec![],
        fields: vec![
            Field::Int(1),
            AsDyn::serialize_payload(&DynPayload { tag: "Unknown".to_string(), data: vec![1, 2] }),
        ],
    };
    let bytes = to_bytes(&g).unwrap();
    let back = from_bytes(&bytes, &[Shape::Int, Shape::Bytes], &mut CurrentHandle { handle: 0 }).unwrap();
    let v: Result<BuildMeta, DeserializeError> = AsDyn::deserialize_with(&r, &back.fields[1], &mut ());
    assert_eq!(v, Err(DeserializeError::UnsupportedType));
}
