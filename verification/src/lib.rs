pub mod compressor;
pub mod errors;
pub mod id_types;
pub mod uuid_ops;

pub use compressor::IdCompressor;
pub use compressor::IdRange;
pub use compressor::TelemetryStats;
pub use errors::AllocatorError;
pub use errors::ClusterCapacityError;
pub use errors::DecompressionError;
pub use errors::DeserializationError;
pub use errors::FinalizationError;
pub use errors::NormalizationError;
pub use errors::RecompressionError;
pub use id_types::CompressedId;
pub use id_types::FinalId;
pub use id_types::LocalId;
pub use id_types::OpSpaceId;
pub use id_types::SessionId;
pub use id_types::SessionSpaceId;
pub use id_types::StableId;
pub mod persistence_utils;
pub mod tables;
