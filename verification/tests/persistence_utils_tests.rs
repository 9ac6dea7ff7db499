use id_compressor::errors::DeserializationError;
use id_compressor::persistence_utils::write_u128_to_vec;
use id_compressor::persistence_utils::write_u64_to_vec;
use id_compressor::persistence_utils::Deserializer;

#[test]
fn test_serde_utils() {
    let mut bytes: Vec<u8> = Vec::new();

    for val in [1u64, 2, 3] {
        write_u64_to_vec(&mut bytes, val);
    }
    for val in [1u128, 2, 3] {
        write_u128_to_vec(&mut bytes, val);
    }

    let mut deser = Deserializer::new(&bytes);
    let mut u64s: Vec<u64> = vec![];
    for _ in 0..3 {
        u64s.push(deser.consume_u64());
    }
    let mut u128s: Vec<u128> = vec![];
    for _ in 0..3 {
        u128s.push(deser.consume_u128());
    }
    assert_eq!(u64s, vec![1, 2, 3]);
    assert_eq!(u128s, vec![1, 2, 3]);
}

#[test]
fn test_malformed_input() {
    let mut bytes: Vec<u8> = Vec::new();
    write_u64_to_vec(&mut bytes, 42);
    let deser = Deserializer::new(&bytes);
    let (val, deser) = deser.take_u128();
    assert_eq!(val, u128::default());
    assert_eq!(deser.error(), Some(DeserializationError::MalformedInput));
}

#[test]
fn assert_local_id_alignment() {
    assert_eq!(id_compressor::id_types::LocalId::from_id(-1).to_generation_count(), 1);
}
