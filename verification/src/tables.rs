pub mod final_space;
pub mod id_cluster;
pub mod session_space;
pub mod session_space_normalizer;
pub mod uuid_space;

pub use final_space::FinalSpace;
pub use id_cluster::ClusterProperties;
pub use id_cluster::IdCluster;
pub use session_space::ClusterRef;
pub use session_space::Sessions;
pub use session_space::SessionSpace;
pub use session_space::SessionSpaceRef;
pub use session_space_normalizer::SessionSpaceNormalizer;
pub use uuid_space::UuidSpace;
