use safetensors::{
    deserialize_borrowed, deserialize_owned, serialize, Container, Dtype, SafeTensorError, Tensor,
};

fn frame(header: &str, data: &[u8]) -> Vec<u8> {
    let mut buf = (header.len() as u64).to_le_bytes().to_vec();
    buf.extend_from_slice(header.as_bytes());
    buf.extend_from_slice(data);
    buf
}

fn one_tensor_container() -> Container {
    let data: Vec<u8> = (0u8..16).collect();
    let t = Tensor::new(data, Dtype::F32, vec![2, 2]).unwrap();
    let mut c = Container::new();
    assert!(c.insert("weight".to_string(), t));
    c
}

#[test]
fn concrete_scenario_serialize() {
    let c = one_tensor_container();
    let out = serialize(&c);
    let header = r#"{"weight":{"dtype":"F32","shape":[2,2],"data_offsets":[0,16]}}"#;
    let expected = frame(header, &(0u8..16).collect::<Vec<u8>>());
    assert_eq!(out, expected);
    assert_eq!(&out[0..8], &(header.len() as u64).to_le_bytes());
}

#[test]
fn concrete_scenario_deserialize() {
    let c = one_tensor_container();
    let out = serialize(&c);
    let back = deserialize_owned(&out).unwrap();
    assert_eq!(back.len(), 1);
    let t = back.get(&"weight".to_string()).unwrap();
    assert_eq!(t.dtype(), Dtype::F32);
    assert_eq!(t.shape(), &vec![2usize, 2]);
    assert_eq!(t.data(), &(0u8..16).collect::<Vec<u8>>());
}

#[test]
fn round_trip_multiple_tensors() {
    let mut c = Container::new();
    let a = Tensor::new(vec![1, 2, 3, 4], Dtype::U8, vec![4]).unwrap();
    let b = Tensor::new(vec![9; 8], Dtype::I32, vec![2]).unwrap();
    let s = Tensor::new(vec![7; 2], Dtype::U16, vec![]).unwrap();
    assert!(c.insert("a".to_string(), a));
    assert!(c.insert("b".to_string(), b));
    assert!(c.insert("scalar".to_string(), s));
    let out = serialize(&c);
    let back = deserialize_owned(&out).unwrap();
    assert_eq!(back.len(), 3);
    let ta = back.get(&"a".to_string()).unwrap();
    assert_eq!(ta.dtype(), Dtype::U8);
    assert_eq!(ta.shape(), &vec![4usize]);
    assert_eq!(ta.data(), &vec![1u8, 2, 3, 4]);
    let tb = back.get(&"b".to_string()).unwrap();
    assert_eq!(tb.dtype(), Dtype::I32);
    assert_eq!(tb.data(), &vec![9u8; 8]);
    let ts = back.get(&"scalar".to_string()).unwrap();
    assert_eq!(ts.shape(), &Vec::<usize>::new());
    assert_eq!(ts.data(), &vec![7u8; 2]);
}

#[test]
fn round_trip_escaped_name() {
    let mut c = Container::new();
    let t = Tensor::new(vec![5], Dtype::U8, vec![1]).unwrap();
    let name = "we\"ird\\name".to_string();
    assert!(c.insert(name.clone(), t));
    let out = serialize(&c);
    let back = deserialize_owned(&out).unwrap();
    assert!(back.get(&name).is_some());
    assert_eq!(back.get(&name).unwrap().data(), &vec![5u8]);
}

#[test]
fn round_trip_zero_sized_tensor() {
    let mut c = Container::new();
    let t = Tensor::new(vec![], Dtype::F64, vec![0, 3]).unwrap();
    assert!(c.insert("empty".to_string(), t));
    let out = serialize(&c);
    let back = deserialize_owned(&out).unwrap();
    assert_eq!(back.get(&"empty".to_string()).unwrap().shape(), &vec![0usize, 3]);
    assert_eq!(back.get(&"empty".to_string()).unwrap().data(), &Vec::<u8>::new());
}

#[test]
fn borrowed_matches_owned() {
    let mut c = Container::new();
    let t = Tensor::new(vec![1, 2, 3, 4, 5, 6, 7, 8], Dtype::U32, vec![2]).unwrap();
    assert!(c.insert("x".to_string(), t));
    c.set_metadata(vec![("k".to_string(), "v".to_string())]);
    let out = serialize(&c);
    let owned = deserialize_owned(&out).unwrap();
    let view = deserialize_borrowed(&out).unwrap();
    assert_eq!(view.len(), owned.len());
    let names = view.names();
    assert_eq!(names.len(), 1);
    assert_eq!(names[0], "x");
    let vt = view.get(&"x".to_string()).unwrap();
    let ot = owned.get(&"x".to_string()).unwrap();
    assert_eq!(vt.dtype, ot.dtype());
    assert_eq!(&vt.shape, ot.shape());
    assert_eq!(vt.data, ot.data().as_slice());
    assert_eq!(view.metadata().as_ref(), owned.metadata().as_ref());
}

#[test]
fn serialize_is_deterministic() {
    let c = one_tensor_container();
    let out1 = serialize(&c);
    let out2 = serialize(&c);
    assert_eq!(out1, out2);
}

#[test]
fn metadata_passthrough() {
    let mut c = Container::new();
    let t = Tensor::new(vec![0; 4], Dtype::F32, vec![1]).unwrap();
    assert!(c.insert("w".to_string(), t));
    c.set_metadata(vec![
        ("format".to_string(), "pt".to_string()),
        ("note".to_string(), "with \"quotes\" and \\slashes\\".to_string()),
    ]);
    let out = serialize(&c);
    let back = deserialize_owned(&out).unwrap();
    let md = back.metadata().as_ref().unwrap();
    assert_eq!(md.len(), 2);
    assert_eq!(md[0], ("format".to_string(), "pt".to_string()));
    assert_eq!(md[1], ("note".to_string(), "with \"quotes\" and \\slashes\\".to_string()));
}

#[test]
fn metadata_only_container() {
    let mut c = Container::new();
    c.set_metadata(vec![("a".to_string(), "b".to_string())]);
    let out = serialize(&c);
    let back = deserialize_owned(&out).unwrap();
    assert_eq!(back.len(), 0);
    assert_eq!(back.metadata().as_ref().unwrap()[0], ("a".to_string(), "b".to_string()));
}

#[test]
fn empty_container_round_trip() {
    let c = Container::new();
    let out = serialize(&c);
    let header = "{}";
    assert_eq!(out, frame(header, &[]));
    let back = deserialize_owned(&out).unwrap();
    assert_eq!(back.len(), 0);
    assert!(back.metadata().is_none());
}

#[test]
fn truncated_under_eight_bytes() {
    for buf in [&[][..], &[1, 2, 3][..], &[0; 7][..]] {
        match deserialize_owned(buf) {
            Err(SafeTensorError::TruncatedHeader) => {},
            other => panic!("expected TruncatedHeader, got {:?}", other.map(|c| c.len())),
        }
    }
}

#[test]
fn truncated_declared_length_past_end() {
    let mut buf = (100u64).to_le_bytes().to_vec();
    buf.extend_from_slice(b"{}");
    match deserialize_owned(&buf) {
        Err(SafeTensorError::TruncatedHeader) => {},
        other => panic!("expected TruncatedHeader, got {:?}", other.map(|c| c.len())),
    }
}

#[test]
fn header_over_ceiling() {
    let n: usize = 100_000_001;
    let mut buf = (n as u64).to_le_bytes().to_vec();
    buf.extend_from_slice(&vec![b'x'; n]);
    match deserialize_owned(&buf) {
        Err(SafeTensorError::HeaderTooLarge) => {},
        other => panic!("expected HeaderTooLarge, got {:?}", other.map(|c| c.len())),
    }
}

#[test]
fn offset_past_data_section() {
    let header = r#"{"a":{"dtype":"U8","shape":[5],"data_offsets":[0,5]}}"#;
    let buf = frame(header, &[1, 2, 3, 4]);
    match deserialize_owned(&buf) {
        Err(SafeTensorError::InvalidOffsets) | Err(SafeTensorError::SizeMismatch) => {},
        other => panic!("expected an offset failure, got {:?}", other.map(|c| c.len())),
    }
}

#[test]
fn start_after_end() {
    let header = r#"{"a":{"dtype":"U8","shape":[1],"data_offsets":[2,1]}}"#;
    let buf = frame(header, &[1, 2, 3]);
    match deserialize_owned(&buf) {
        Err(SafeTensorError::InvalidOffsets) => {},
        other => panic!("expected InvalidOffsets, got {:?}", other.map(|c| c.len())),
    }
}

#[test]
fn size_mismatch() {
    let header = r#"{"a":{"dtype":"U8","shape":[4],"data_offsets":[0,3]}}"#;
    let buf = frame(header, &[1, 2, 3]);
    match deserialize_owned(&buf) {
        Err(SafeTensorError::SizeMismatch) => {},
        other => panic!("expected SizeMismatch, got {:?}", other.map(|c| c.len())),
    }
}

#[test]
fn duplicate_name_rejected() {
    let header = "{\"weight\":{\"dtype\":\"U8\",\"shape\":[1],\"data_offsets\":[0,1]},\"weight\":{\"dtype\":\"U8\",\"shape\":[1],\"data_offsets\":[1,2]}}";
    let buf = frame(header, &[1, 2]);
    match deserialize_owned(&buf) {
        Err(SafeTensorError::DuplicateName) => {},
        other => panic!("expected DuplicateName, got {:?}", other.map(|c| c.len())),
    }
}

#[test]
fn gap_between_ranges() {
    let header = "{\"a\":{\"dtype\":\"U8\",\"shape\":[4],\"data_offsets\":[0,4]},\"b\":{\"dtype\":\"U8\",\"shape\":[4],\"data_offsets\":[5,9]}}";
    let buf = frame(header, &[0; 9]);
    match deserialize_owned(&buf) {
        Err(SafeTensorError::OffsetsNotContiguous) => {},
        other => panic!("expected OffsetsNotContiguous, got {:?}", other.map(|c| c.len())),
    }
}

#[test]
fn unsupported_dtype_rejected() {
    let header = r#"{"a":{"dtype":"Q7","shape":[1],"data_offsets":[0,1]}}"#;
    let buf = frame(header, &[1]);
    match deserialize_owned(&buf) {
        Err(SafeTensorError::UnsupportedDtype) => {},
        other => panic!("expected UnsupportedDtype, got {:?}", other.map(|c| c.len())),
    }
}

#[test]
fn negative_shape_rejected() {
    let header = r#"{"a":{"dtype":"U8","shape":[-1],"data_offsets":[0,1]}}"#;
    let buf = frame(header, &[1]);
    match deserialize_owned(&buf) {
        Err(SafeTensorError::InvalidShape) => {},
        other => panic!("expected InvalidShape, got {:?}", other.map(|c| c.len())),
    }
}

#[test]
fn malformed_header_rejected() {
    for header in ["", "{", "nonsense", r#"{"a":1}"#, r#"{"a":{"dtype":"U8"}}"#] {
        let buf = frame(header, &[]);
        match deserialize_owned(&buf) {
            Err(SafeTensorError::MalformedHeader) => {},
            other => panic!("expected MalformedHeader for {:?}, got {:?}", header, other.map(|c| c.len())),
        }
    }
}
