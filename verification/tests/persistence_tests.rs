use id_compressor::DeserializationError;
use id_compressor::IdCompressor;
use id_compressor::SessionId;

fn roundtrip_with_local(c: &IdCompressor) -> IdCompressor {
    let bytes = c.serialize(true);
    IdCompressor::deserialize(&bytes, SessionId::new()).unwrap()
}

fn roundtrip_without_local(c: &IdCompressor) -> IdCompressor {
    let bytes = c.serialize(false);
    IdCompressor::deserialize(&bytes, SessionId::new()).unwrap()
}

#[test]
fn test_serialize_empty_compressor() {
    let compressor = IdCompressor::new();
    let with_local = roundtrip_with_local(&compressor);
    assert!(compressor.equals_test_only(&with_local, true));
    let without_local = roundtrip_without_local(&compressor);
    assert!(compressor.equals_test_only(&without_local, false));
}

#[test]
fn test_serialize_and_resume() {
    let mut compressor_a = IdCompressor::new();
    let mut compressor_b = IdCompressor::new();
    let _ = compressor_a.generate_next_id();
    let range_1 = compressor_a.take_next_range();
    let _ = compressor_a.finalize_range(&range_1);
    let _ = compressor_b.finalize_range(&range_1);

    let mut resumed_with_local = roundtrip_with_local(&compressor_a);
    let _ = resumed_with_local.generate_next_id();
    let range_2 = resumed_with_local.take_next_range();
    let _ = resumed_with_local.finalize_range(&range_2);
    assert!(compressor_b.finalize_range(&range_2).is_ok());

    let roundtripped_without_local_a = roundtrip_without_local(&resumed_with_local);
    let roundtripped_without_local_b = roundtrip_without_local(&compressor_b);
    assert!(roundtripped_without_local_a.equals_test_only(&roundtripped_without_local_b, false));
}

#[test]
fn compressor_deserialize_and_resume() {
    let mut compressor_1 = IdCompressor::new();
    let mut compressor_2 = IdCompressor::new();
    let _ = compressor_1.generate_next_id();
    let out_range = compressor_1.take_next_range();
    let _ = compressor_1.finalize_range(&out_range);
    let _ = compressor_2.finalize_range(&out_range);
    let serialized_1 = compressor_1.serialize(true);
    let mut compressor_resumed =
        IdCompressor::deserialize(&serialized_1, SessionId::new()).ok().unwrap();
    assert!(compressor_resumed.get_local_session_id() == compressor_1.get_local_session_id());
    let _ = compressor_resumed.generate_next_id();
    let out_range_2 = compressor_resumed.take_next_range();
    assert!(compressor_resumed.finalize_range(&out_range_2).is_ok())
}

#[test]
fn compressor_unit_tests_deserialize_and_resume() {
    let mut compressor_1 = IdCompressor::new();
    let mut compressor_2 = IdCompressor::new();
    let _ = compressor_1.generate_next_id();
    let out_range = compressor_1.take_next_range();
    let _ = compressor_1.finalize_range(&out_range);
    let _ = compressor_2.finalize_range(&out_range);
    let serialized_1 = compressor_1.serialize(true);
    let mut compressor_resumed =
        IdCompressor::deserialize(&serialized_1, SessionId::new()).ok().unwrap();
    assert!(compressor_resumed.get_local_session_id() == compressor_1.get_local_session_id());
    let _ = compressor_resumed.generate_next_id();
    let out_range_2 = compressor_resumed.take_next_range();
    assert!(compressor_resumed.finalize_range(&out_range_2).is_ok())
}

#[test]
fn test_deserialize_unknown_version() {
    let compressor = IdCompressor::new();
    let mut bytes = compressor.serialize(false);
    // the leading version word becomes 2
    bytes[0] = 2;
    assert_eq!(
        IdCompressor::deserialize(&bytes, SessionId::new()).unwrap_err(),
        DeserializationError::UnknownVersion
    );
}

#[test]
fn test_deserialize_truncated_payload() {
    let compressor = IdCompressor::new();
    let bytes = compressor.serialize(true);
    let truncated = &bytes[..bytes.len() - 1];
    assert_eq!(
        IdCompressor::deserialize(truncated, SessionId::new()).unwrap_err(),
        DeserializationError::MalformedInput
    );
    assert_eq!(
        IdCompressor::deserialize(&[], SessionId::new()).unwrap_err(),
        DeserializationError::MalformedInput
    );
}

#[test]
fn test_deserialize_rejects_resumed_session() {
    let compressor = IdCompressor::new();
    let bytes = compressor.serialize(false);
    // the embedded session list always holds the serializing session itself
    assert_eq!(
        IdCompressor::deserialize(&bytes, compressor.get_local_session_id()).unwrap_err(),
        DeserializationError::InvalidResumedSession
    );
}

#[test]
fn test_serialized_layout_is_little_endian() {
    let compressor = IdCompressor::new();
    let bytes = compressor.serialize(false);
    // version 1, no local state, capacity 512, one session, no clusters
    assert_eq!(&bytes[0..8], &[1, 0, 0, 0, 0, 0, 0, 0]);
    assert_eq!(&bytes[8..16], &[0u8; 8]);
    assert_eq!(&bytes[16..24], &[0, 2, 0, 0, 0, 0, 0, 0]);
    assert_eq!(&bytes[24..32], &[1, 0, 0, 0, 0, 0, 0, 0]);
    assert_eq!(bytes.len(), 16 + 8 + 8 + 16 + 8);
}
