use safetensors::{dtype::parse_dtype, dtype::parse_dtype_bytes, Container, Dtype, SafeTensorError, Tensor};

#[test]
fn dtype_widths() {
    assert_eq!(Dtype::Bool.byte_width(), 1);
    assert_eq!(Dtype::U8.byte_width(), 1);
    assert_eq!(Dtype::I8.byte_width(), 1);
    assert_eq!(Dtype::U16.byte_width(), 2);
    assert_eq!(Dtype::I16.byte_width(), 2);
    assert_eq!(Dtype::F16.byte_width(), 2);
    assert_eq!(Dtype::U32.byte_width(), 4);
    assert_eq!(Dtype::I32.byte_width(), 4);
    assert_eq!(Dtype::F32.byte_width(), 4);
    assert_eq!(Dtype::U64.byte_width(), 8);
    assert_eq!(Dtype::I64.byte_width(), 8);
    assert_eq!(Dtype::F64.byte_width(), 8);
}

#[test]
fn dtype_names_parse_back() {
    let all = [
        (Dtype::Bool, "BOOL"),
        (Dtype::U8, "U8"),
        (Dtype::I8, "I8"),
        (Dtype::U16, "U16"),
        (Dtype::I16, "I16"),
        (Dtype::F16, "F16"),
        (Dtype::U32, "U32"),
        (Dtype::I32, "I32"),
        (Dtype::F32, "F32"),
        (Dtype::U64, "U64"),
        (Dtype::I64, "I64"),
        (Dtype::F64, "F64"),
    ];
    for (d, name) in all {
        let mut out = Vec::new();
        d.push_name(&mut out);
        assert_eq!(out, name.as_bytes());
        assert_eq!(parse_dtype_bytes(name.as_bytes()), Ok(d));
    }
    assert_eq!(parse_dtype_bytes(b"float32"), Err(SafeTensorError::UnsupportedDtype));
    assert_eq!(parse_dtype_bytes(b""), Err(SafeTensorError::UnsupportedDtype));
}

#[test]
fn dtype_string_names_round_trip() {
    for d in [
        Dtype::Bool,
        Dtype::U8,
        Dtype::I8,
        Dtype::U16,
        Dtype::I16,
        Dtype::F16,
        Dtype::U32,
        Dtype::I32,
        Dtype::F32,
        Dtype::U64,
        Dtype::I64,
        Dtype::F64,
    ] {
        assert_eq!(parse_dtype(d.canonical_name()), Ok(d));
    }
    assert_eq!(parse_dtype("f32"), Err(SafeTensorError::UnsupportedDtype));
}

#[test]
fn tensor_new_checks_length() {
    assert!(Tensor::new(vec![0; 16], Dtype::F32, vec![2, 2]).is_some());
    assert!(Tensor::new(vec![0; 15], Dtype::F32, vec![2, 2]).is_none());
    assert!(Tensor::new(vec![], Dtype::U8, vec![0]).is_some());
    // An empty shape is a scalar: exactly one element.
    assert!(Tensor::new(vec![0; 8], Dtype::F64, vec![]).is_some());
    assert!(Tensor::new(vec![], Dtype::F64, vec![]).is_none());
}

#[test]
fn container_rejects_duplicates_and_reserved() {
    let mut c = Container::new();
    let t1 = Tensor::new(vec![1], Dtype::U8, vec![1]).unwrap();
    let t2 = Tensor::new(vec![2], Dtype::U8, vec![1]).unwrap();
    let t3 = Tensor::new(vec![3], Dtype::U8, vec![1]).unwrap();
    assert!(c.insert("a".to_string(), t1));
    assert!(!c.insert("a".to_string(), t2));
    assert!(!c.insert("__metadata__".to_string(), t3));
    assert_eq!(c.len(), 1);
    assert_eq!(c.get(&"a".to_string()).unwrap().data(), &vec![1u8]);
    assert!(c.get(&"b".to_string()).is_none());
    assert!(c.contains_name(&"a".to_string()));
    assert!(!c.contains_name(&"b".to_string()));
}

#[test]
fn entries_keep_insertion_order() {
    let mut c = Container::new();
    for name in ["z", "m", "a"] {
        let t = Tensor::new(vec![0], Dtype::U8, vec![1]).unwrap();
        assert!(c.insert(name.to_string(), t));
    }
    let names: Vec<&str> = c.entries().iter().map(|p| p.0.as_str()).collect();
    assert_eq!(names, vec!["z", "m", "a"]);
}
