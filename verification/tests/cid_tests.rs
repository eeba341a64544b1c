use crsl::cid::ContentId;

#[test]
fn test_default_cid_creation() {
    let data = b"test data";
    let content_id = ContentId::new(data).unwrap();
    assert_eq!(content_id.to_text(), content_id.to_text());
}

#[test]
fn test_large_data_cid_creation() {
    let data = vec![0u8; 1024 * 1024];
    let content_id = ContentId::new(&data).unwrap();
    assert!(content_id.verify(&data));
}

#[test]
fn test_empty_data_cid_creation() {
    let data = b"";
    let content_id = ContentId::new(data).unwrap();
    assert!(content_id.verify(data));
}

#[test]
fn test_special_characters_cid_creation() {
    let data = b"!@#$%^&*()_+{}|:<>?~`-=[]\\;',./";
    let content_id = ContentId::new(data).unwrap();
    assert!(content_id.verify(data));
}

#[test]
fn test_content_id_from_string() {
    let data = b"test data";
    let content_id = ContentId::new(data).unwrap();
    let cid_string = content_id.to_text();
    let content_id_from_string = ContentId::from_string(&cid_string).unwrap();
    assert_eq!(content_id, content_id_from_string);
}

#[test]
fn test_content_id_from_bytes() {
    let data = b"test data";
    let content_id = ContentId::new(data).unwrap();
    let cid_bytes = content_id.to_bytes();
    let content_id_from_bytes = ContentId::from_bytes(&cid_bytes).unwrap();
    assert_eq!(content_id, content_id_from_bytes);
}

#[test]
fn test_content_id_to_bytes() {
    let data = b"test data";
    let content_id = ContentId::new(data).unwrap();
    let cid_bytes = content_id.to_bytes();
    assert!(!cid_bytes.is_empty());
}

#[test]
fn test_content_id_equality() {
    let data1 = b"test data";
    let data2 = b"test data";
    let content_id1 = ContentId::new(data1).unwrap();
    let content_id2 = ContentId::new(data2).unwrap();
    assert_eq!(content_id1, content_id2);
}

#[test]
fn test_content_id_inequality() {
    let data1 = b"data 1";
    let data2 = b"data 2";
    let content_id1 = ContentId::new(data1).unwrap();
    let content_id2 = ContentId::new(data2).unwrap();
    assert_ne!(content_id1, content_id2);
}

#[test]
fn test_content_id_verify() {
    let data = b"test data";
    let content_id = ContentId::new(data).unwrap();
    assert!(content_id.verify(data));
}

#[test]
fn test_content_id_verify_with_different_data() {
    let data1 = b"test data1";
    let data2 = b"test data2";
    let content_id = ContentId::new(data1).unwrap();
    assert!(!content_id.verify(data2));
}

#[test]
fn malformed_cid_bytes_are_rejected() {
    assert!(matches!(
        ContentId::from_bytes(b"not a cid"),
        Err(crsl::errors::DaslError::InvalidCid)
    ));
    assert!(matches!(
        ContentId::from_string("definitely-not-multibase"),
        Err(crsl::errors::DaslError::InvalidCid)
    ));
}

#[test]
fn cid_shape_is_stable() {
    let c = ContentId::new(b"shape").unwrap();
    let bytes = c.to_bytes();
    assert_eq!(bytes.len(), 36);
    assert_eq!(&bytes[0..4], &[0x01, 0x55, 0x12, 0x20]);
}
