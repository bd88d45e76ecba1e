use rspack_cacheable::{
    check_archive, from_bytes, to_bytes, ArchiveBuffer, CacheableDeserializer, CacheableSerializer, CurrentHandle, DeserializeError, Field, Graph,
    SerializeError, Shape, SharedReadTable, SharedWriteTable, SkipContext,
};

#[derive(Clone)]
struct Env {
    next: u64,
    fail_at: Option<usize>,
    calls: Vec<usize>,
}

impl SkipContext for Env {
    fn rebuilt(&self, index: usize) -> Result<u64, DeserializeError> {
        if self.fail_at == Some(index) {
            Err(DeserializeError::UnsupportedType)
        } else {
            Ok(self.next)
        }
    }

    fn after_rebuild(&self, index: usize) -> Self {
        let mut next = self.clone();
        next.calls.push(index);
        next
    }

    fn reconstruct(&mut self, index: usize) -> Result<u64, DeserializeError> {
        let r = self.rebuilt(index);
        *self = self.after_rebuild(index);
        r
    }
}

fn env(next: u64) -> Env {
    Env { next, fail_at: None, calls: Vec::new() }
}

fn schema_of(g: &Graph) -> Vec<Shape> {
    g.fields
        .iter()
        .map(|f| match f {
            Field::Int(_) => Shape::Int,
            Field::Bytes(_) => Shape::Bytes,
            Field::Text(_) => Shape::Text,
            Field::TextList(_) => Shape::TextList,
            Field::Shared(_) => Shape::Shared,
            Field::Skip(_) => Shape::Skip,
        })
        .collect()
}

fn with_check(mut body: Vec<u8>) -> Vec<u8> {
    let sum: u32 = body.iter().map(|b| *b as u32).sum();
    body.push((sum % 256) as u8);
    body
}

#[test]
fn wrong_check_byte_is_refused() {
    let bytes = to_bytes(&Graph { shared: vec![], fields: vec![Field::Int(0), Field::Bytes(vec![])] }).unwrap();
    assert_eq!(bytes.len(), 17);
    assert_eq!(bytes[16], 0);
    let mut bad = bytes.clone();
    bad[0] = 1;
    assert_eq!(check_archive(&bad, &[Shape::Int, Shape::Bytes]).unwrap_err(), DeserializeError::CheckBytesError);
    bad[16] = 1;
    assert!(check_archive(&bad, &[Shape::Int, Shape::Bytes]).is_ok());
}

fn sample() -> Graph {
    Graph {
        shared: vec![vec![7, 8, 9], vec![1]],
        fields: vec![
            Field::Int(0x0102030405060708),
            Field::Text("héllo".to_string()),
            Field::Shared(1),
            Field::TextList(vec!["src/a.js".to_string(), "".to_string(), "ünï".to_string()]),
            Field::Skip(99),
            Field::Shared(0),
            Field::Bytes(vec![0, 255, 3]),
            Field::Shared(1),
        ],
    }
}

fn same_ints(a: &Field, b: &Field) -> bool {
    match (a, b) {
        (Field::Int(x), Field::Int(y)) => x == y,
        (Field::Bytes(x), Field::Bytes(y)) => x == y,
        (Field::Text(x), Field::Text(y)) => x == y,
        (Field::TextList(x), Field::TextList(y)) => x == y,
        _ => false,
    }
}

#[test]
fn round_trip_restores_every_field() {
    let g = sample();
    let bytes = to_bytes(&g).unwrap();
    let mut ctx = env(5);
    let r = from_bytes(&bytes, &schema_of(&g), &mut ctx).unwrap();
    assert_eq!(r.fields.len(), g.fields.len());
    for (i, (a, b)) in g.fields.iter().zip(r.fields.iter()).enumerate() {
        match (a, b) {
            (Field::Shared(h), Field::Shared(k)) => assert_eq!(g.shared[*h], r.shared[*k]),
            (Field::Skip(_), Field::Skip(v)) => assert_eq!(*v, 5),
            _ => assert!(same_ints(a, b), "field {} differs", i),
        }
    }
    assert_eq!(ctx.calls, vec![4]);
}

#[test]
fn round_trip_keeps_sharing_identity() {
    let g = sample();
    let bytes = to_bytes(&g).unwrap();
    let r = from_bytes(&bytes, &schema_of(&g), &mut env(0)).unwrap();
    let handle = |f: &Field| match f {
        Field::Shared(h) => *h,
        _ => panic!("not shared"),
    };
    assert_eq!(handle(&r.fields[2]), handle(&r.fields[7]));
    assert_ne!(handle(&r.fields[2]), handle(&r.fields[5]));
    // the pool holds each shared value once, in order of first use
    assert_eq!(r.shared, vec![vec![1], vec![7, 8, 9]]);
}

#[test]
fn sharing_is_smaller_than_copies() {
    let v = vec![1u8, 2, 3, 4];
    let shared = Graph { shared: vec![v.clone()], fields: vec![Field::Shared(0), Field::Shared(0)] };
    let copies = Graph {
        shared: vec![v.clone(), v.clone()],
        fields: vec![Field::Shared(0), Field::Shared(1)],
    };
    let a = to_bytes(&shared).unwrap();
    let b = to_bytes(&copies).unwrap();
    assert!(a.len() < b.len());
    assert_eq!(a.len(), 2 + 8 + 4 + 1 + 8 + 1);
    assert_eq!(b.len(), 2 * (2 + 8 + 4) + 1);
}

#[test]
fn sharing_an_empty_value_is_smaller_than_copies() {
    let shared = Graph { shared: vec![vec![]], fields: vec![Field::Shared(0), Field::Shared(0)] };
    let copies = Graph { shared: vec![vec![], vec![]], fields: vec![Field::Shared(0), Field::Shared(1)] };
    let a = to_bytes(&shared).unwrap();
    let b = to_bytes(&copies).unwrap();
    assert_eq!(a.len(), 20);
    assert_eq!(b.len(), 21);
}

#[test]
fn archive_layout_is_exact() {
    let g = Graph {
        shared: vec![vec![0xAA]],
        fields: vec![Field::Int(258), Field::Text("ab".to_string()), Field::Shared(0), Field::Shared(0)],
    };
    let bytes = to_bytes(&g).unwrap();
    let mut expect: Vec<u8> = vec![2, 1, 0, 0, 0, 0, 0, 0];
    expect.extend_from_slice(&[2, 0, 0, 0, 0, 0, 0, 0, b'a', b'b']);
    expect.extend_from_slice(&[0, 0xFF, 1, 0, 0, 0, 0, 0, 0, 0, 0xAA]);
    expect.extend_from_slice(&[1, 18, 0, 0, 0, 0, 0, 0, 0]);
    let sum: u32 = expect.iter().map(|b| *b as u32).sum();
    expect.push((sum % 256) as u8);
    assert_eq!(expect[expect.len() - 1], 0x85);
    assert_eq!(bytes, expect);
}

#[test]
fn skip_field_takes_no_bytes() {
    let with_skip = |v: u64| Graph { shared: vec![], fields: vec![Field::Int(1), Field::Skip(v)] };
    let a = to_bytes(&with_skip(0)).unwrap();
    let b = to_bytes(&with_skip(u64::MAX)).unwrap();
    assert_eq!(a, b);
    let plain = to_bytes(&Graph { shared: vec![], fields: vec![Field::Int(1)] }).unwrap();
    assert_eq!(a, plain);
}

#[test]
fn skip_field_comes_from_context() {
    let g = Graph { shared: vec![], fields: vec![Field::Skip(1), Field::Int(3), Field::Skip(2)] };
    let bytes = to_bytes(&g).unwrap();
    assert_eq!(bytes.len(), 9);
    let mut ctx = env(42);
    let r = from_bytes(&bytes, &schema_of(&g), &mut ctx).unwrap();
    assert!(matches!(r.fields[0], Field::Skip(42)));
    assert!(matches!(r.fields[1], Field::Int(3)));
    assert!(matches!(r.fields[2], Field::Skip(42)));
    assert_eq!(ctx.calls, vec![0, 2]);
}

#[test]
fn context_error_ends_the_read() {
    let g = Graph { shared: vec![], fields: vec![Field::Skip(1), Field::Int(3), Field::Skip(2), Field::Skip(3)] };
    let bytes = to_bytes(&g).unwrap();
    let mut ctx = env(7);
    ctx.fail_at = Some(2);
    let r = from_bytes(&bytes, &schema_of(&g), &mut ctx);
    assert_eq!(r.unwrap_err(), DeserializeError::UnsupportedType);
    assert_eq!(ctx.calls, vec![0, 2]);
}

#[test]
fn context_untouched_when_bytes_are_refused() {
    let g = Graph { shared: vec![], fields: vec![Field::Skip(1), Field::Int(3)] };
    let bytes = to_bytes(&g).unwrap();
    let mut ctx = env(7);
    let r = from_bytes(&bytes[..7], &schema_of(&g), &mut ctx);
    assert_eq!(r.unwrap_err(), DeserializeError::CheckBytesError);
    assert!(ctx.calls.is_empty());
}

#[test]
fn current_handle_fills_every_skipped_field() {
    let g = Graph { shared: vec![], fields: vec![Field::Skip(1), Field::Skip(2)] };
    let bytes = to_bytes(&g).unwrap();
    let r = from_bytes(&bytes, &schema_of(&g), &mut CurrentHandle { handle: 11 }).unwrap();
    assert!(matches!(r.fields[0], Field::Skip(11)));
    assert!(matches!(r.fields[1], Field::Skip(11)));
}

#[test]
fn empty_record_is_empty_archive() {
    let g = Graph { shared: vec![], fields: vec![] };
    let bytes = to_bytes(&g).unwrap();
    assert_eq!(bytes, vec![0]);
    let r = from_bytes(&bytes, &[], &mut env(0)).unwrap();
    assert!(r.fields.is_empty());
    assert!(r.shared.is_empty());
}

#[test]
fn dangling_handle_is_shared_error() {
    let g = Graph { shared: vec![vec![1]], fields: vec![Field::Shared(1)] };
    assert_eq!(to_bytes(&g).unwrap_err(), SerializeError::SharedError);
}

#[test]
fn any_changed_byte_is_refused() {
    let g = Graph {
        shared: vec![b"shared".to_vec()],
        fields: vec![
            Field::Text("abc".to_string()),
            Field::TextList(vec!["x".to_string(), "yz".to_string()]),
            Field::Shared(0),
            Field::Skip(0),
            Field::Shared(0),
        ],
    };
    let schema = schema_of(&g);
    let bytes = to_bytes(&g).unwrap();
    for i in 0..bytes.len() {
        for m in [1u8, 2, 0x10, 0x80, 0xFF] {
            let mut bad = bytes.clone();
            bad[i] ^= m;
            let mut ctx = env(0);
            let r = from_bytes(&bad, &schema, &mut ctx);
            assert_eq!(r.unwrap_err(), DeserializeError::CheckBytesError, "byte {} mask {}", i, m);
            assert!(ctx.calls.is_empty());
        }
    }
}

#[test]
fn truncated_or_padded_archive_is_refused() {
    let g = sample();
    let schema = schema_of(&g);
    let bytes = to_bytes(&g).unwrap();
    for n in 0..bytes.len() {
        assert_eq!(check_archive(&bytes[..n], &schema).unwrap_err(), DeserializeError::CheckBytesError);
    }
    let mut longer = bytes.clone();
    longer.push(0);
    assert_eq!(check_archive(&longer, &schema).unwrap_err(), DeserializeError::CheckBytesError);
}

#[test]
fn invalid_utf8_text_is_refused() {
    let mut bytes: Vec<u8> = vec![2, 0, 0, 0, 0, 0, 0, 0];
    bytes.extend_from_slice(&[0xC3, 0x28]);
    let bytes = with_check(bytes);
    assert_eq!(check_archive(&bytes, &[Shape::Text]).unwrap_err(), DeserializeError::CheckBytesError);
    let ok = with_check(vec![2, 0, 0, 0, 0, 0, 0, 0, 0xC3, 0xA9]);
    let r = check_archive(&ok, &[Shape::Text]).unwrap();
    assert!(matches!(&r.fields[0], Field::Text(s) if s == "é"));
}

#[test]
fn forward_back_reference_is_refused() {
    // a back-reference to offset 0 before anything was written there
    let bytes = with_check(vec![1, 0, 0, 0, 0, 0, 0, 0, 0]);
    assert_eq!(check_archive(&bytes, &[Shape::Shared]).unwrap_err(), DeserializeError::CheckBytesError);
}

#[test]
fn buffer_align_pads_to_multiple() {
    let mut buf = ArchiveBuffer::new();
    buf.write(&[1, 2, 3]);
    assert_eq!(buf.align(8), Ok(8));
    assert_eq!(buf.pos(), 8);
    assert_eq!(buf.align(8), Ok(8));
    buf.pad(2);
    buf.write_u64(0x0102);
    assert_eq!(buf.align(0), Err(SerializeError::SerializerError));
    assert_eq!(buf.into_bytes(), vec![1, 2, 3, 0, 0, 0, 0, 0, 0, 0, 2, 1, 0, 0, 0, 0, 0, 0]);
}

#[test]
fn scratch_space_is_aligned_and_last_in_first_out() {
    let mut buf = ArchiveBuffer::new();
    assert_eq!(buf.push_scratch(3, 1), Ok(0));
    assert_eq!(buf.push_scratch(4, 8), Ok(8));
    assert_eq!(buf.push_scratch(2, 4), Ok(12));
    buf.write_scratch(8, &[1, 2, 3]);
    assert_eq!(buf.read_scratch(8, 4), vec![1, 2, 3, 0]);
    assert_eq!(buf.pop_scratch(8, 4), Err(SerializeError::ScratchSpaceError));
    assert_eq!(buf.pop_scratch(12, 2), Ok(()));
    assert_eq!(buf.pop_scratch(8, 4), Ok(()));
    assert_eq!(buf.push_scratch(1, 16), Ok(16));
    assert_eq!(buf.push_scratch(1, 0), Err(SerializeError::ScratchSpaceError));
    assert_eq!(buf.push_scratch(usize::MAX, 1), Err(SerializeError::ScratchSpaceError));
    assert_eq!(buf.pop_scratch(16, 1), Ok(()));
    assert_eq!(buf.pop_scratch(0, 3), Ok(()));
    assert_eq!(buf.pop_scratch(0, 3), Err(SerializeError::ScratchSpaceError));
    assert!(buf.into_bytes().is_empty());
}

#[test]
fn shared_tables_refuse_second_registration() {
    let mut w = SharedWriteTable::new(2);
    assert_eq!(w.get_shared_ptr(1), None);
    assert_eq!(w.add_shared_ptr(1, 40), Ok(()));
    assert_eq!(w.get_shared_ptr(1), Some(40));
    assert_eq!(w.add_shared_ptr(1, 50), Err(SerializeError::SharedError));
    assert_eq!(w.add_shared_ptr(2, 50), Err(SerializeError::SharedError));

    let mut r = SharedReadTable::new();
    assert_eq!(r.add_shared_ptr(9, 0), Ok(()));
    assert_eq!(r.get_shared_ptr(9), Some(0));
    assert_eq!(r.add_shared_ptr(9, 1), Err(DeserializeError::DuplicateSharedPointer));
    assert_eq!(r.get_shared_ptr(9), Some(0));
    assert_eq!(r.get_shared_ptr(3), None);
}

#[test]
fn serializer_tracks_position_and_sharing() {
    let mut s = CacheableSerializer::new(1);
    s.write(&[9, 9, 9]);
    assert_eq!(s.pos(), 3);
    assert_eq!(s.align(4), Ok(4));
    s.write_byte(1);
    s.write_u64(2);
    s.pad(1);
    assert_eq!(s.get_shared_ptr(0), None);
    assert_eq!(s.add_shared_ptr(0, 4), Ok(()));
    assert_eq!(s.get_shared_ptr(0), Some(4));
    assert_eq!(s.add_shared_ptr(0, 5), Err(SerializeError::SharedError));
    assert_eq!(s.push_scratch(8, 8), Ok(0));
    assert_eq!(s.pop_scratch(0, 8), Ok(()));
    assert_eq!(s.pop_scratch(0, 8), Err(SerializeError::ScratchSpaceError));
    assert_eq!(s.into_bytes(), vec![9, 9, 9, 0, 1, 2, 0, 0, 0, 0, 0, 0, 0, 0]);
}

#[test]
fn deserializer_refuses_duplicate_offset() {
    let mut d = CacheableDeserializer::new();
    assert_eq!(d.get_shared_ptr(12), None);
    assert_eq!(d.add_shared_ptr(12, 0), Ok(()));
    assert_eq!(d.add_shared_ptr(12, 1), Err(DeserializeError::DuplicateSharedPointer));
    assert_eq!(d.get_shared_ptr(12), Some(0));
}

#[test]
fn sharing_saves_space_in_a_larger_record() {
    let g = Graph {
        shared: vec![vec![], vec![4, 5]],
        fields: vec![Field::Shared(0), Field::Int(9), Field::Shared(1), Field::Shared(0), Field::Shared(1)],
    };
    let mut copy = g.clone();
    copy.shared.push(vec![]);
    copy.fields[3] = Field::Shared(2);
    let a = to_bytes(&g).unwrap();
    let b = to_bytes(&copy).unwrap();
    assert_eq!(b.len(), a.len() + 1);
    let r = from_bytes(&a, &schema_of(&g), &mut env(0)).unwrap();
    let handle = |f: &Field| match f {
        Field::Shared(h) => *h,
        _ => panic!("not shared"),
    };
    assert_eq!(handle(&r.fields[0]), handle(&r.fields[3]));
    assert_eq!(handle(&r.fields[2]), handle(&r.fields[4]));
    assert_ne!(handle(&r.fields[0]), handle(&r.fields[2]));
}
