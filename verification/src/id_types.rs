pub mod final_id;
pub mod local_id;
pub mod op_space_id;
pub mod session_id;
pub mod session_space_id;
pub mod stable_id;

pub use final_id::FinalId;
pub use local_id::LocalId;
pub use op_space_id::OpSpaceId;
pub use session_id::SessionId;
pub use session_space_id::CompressedId;
pub use session_space_id::SessionSpaceId;
pub use stable_id::StableId;
