use id_compressor::id_types::LocalId;
use id_compressor::persistence_utils::Deserializer;
use id_compressor::tables::session_space_normalizer::deserialize_normalizer;
use id_compressor::tables::session_space_normalizer::serialize_normalizer;
use id_compressor::tables::session_space_normalizer::SessionSpaceNormalizer;

#[test]
fn test_empty() {
    let session_space_normalizer = SessionSpaceNormalizer::new();
    assert!(!session_space_normalizer.contains(LocalId::new(-1)));
}

#[test]
fn test_single() {
    let mut session_space_normalizer = SessionSpaceNormalizer::new();
    session_space_normalizer.add_local_range(LocalId::new(-1), 5);
    assert!(session_space_normalizer.contains(LocalId::new(-1)));
    assert!(session_space_normalizer.contains(LocalId::new(-2)));
}

#[test]
fn test_discontiguous() {
    let mut session_space_normalizer = SessionSpaceNormalizer::new();
    session_space_normalizer.add_local_range(LocalId::new(-1), 2);
    session_space_normalizer.add_local_range(LocalId::new(-6), 4);
    session_space_normalizer.add_local_range(LocalId::new(-15), 1);
    assert!(!session_space_normalizer.contains(LocalId::new(-11)));
    assert!(!session_space_normalizer.contains(LocalId::new(-4)));
    assert!(session_space_normalizer.contains(LocalId::new(-7)));
}

#[test]
fn test_contiguous() {
    let mut session_space_normalizer = SessionSpaceNormalizer::new();
    session_space_normalizer.add_local_range(LocalId::new(-1), 2);
    session_space_normalizer.add_local_range(LocalId::new(-3), 4);
    session_space_normalizer.add_local_range(LocalId::new(-15), 1);
    assert!(session_space_normalizer.contains(LocalId::new(-1)));
    assert!(session_space_normalizer.contains(LocalId::new(-4)));
    assert!(session_space_normalizer.contains(LocalId::new(-6)));
    assert!(!session_space_normalizer.contains(LocalId::new(-7)));
    assert!(session_space_normalizer.contains(LocalId::new(-15)));
}

#[test]
fn persistence_serialize_deserialize() {
    let mut session_space_normalizer = SessionSpaceNormalizer::new();

    session_space_normalizer.add_local_range(LocalId::new(-1), 3);
    session_space_normalizer.add_local_range(LocalId::new(-6), 1);
    session_space_normalizer.add_local_range(LocalId::new(-8), 2);
    session_space_normalizer.add_local_range(LocalId::new(-12), 5);
    session_space_normalizer.add_local_range(LocalId::new(-20), 3);

    let mut serialized: Vec<u8> = Vec::new();
    serialize_normalizer(&session_space_normalizer, &mut serialized);
    let mut deserializer = Deserializer::new(&serialized);
    let round_tripped = deserialize_normalizer(&mut deserializer).unwrap();
    assert!(session_space_normalizer.equals(&round_tripped));
}
