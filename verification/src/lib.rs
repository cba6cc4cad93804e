//! Voxel storage: dense multi-channel voxel buffers, data blocks and maps of
//! blocks at several levels of detail, with every operation specified and
//! proved against a mathematical model.

pub mod answer_laws;
pub mod area_laws;
pub mod boxes;
pub mod buffer_laws;
pub mod buffer_model;
pub mod channel;
pub mod collections;
pub mod data_copy;
pub mod data_laws;
pub mod depth;
pub mod edit_laws;
pub mod entry_laws;
pub mod funcs;
pub mod generator;
pub mod grid;
pub mod level_laws;
pub mod map_areas;
pub mod map_paste;
pub mod math;
pub mod metadata;
pub mod mutation_error;
pub mod paste_laws;
pub mod place_laws;
pub mod position_map;
pub mod prepared_transaction;
pub mod resident_copies;
pub mod revision;
pub mod save_laws;
pub mod shared_change_laws;
pub mod shared_data;
pub mod shared_edits;
pub mod shared_laws;
pub mod shared_level_laws;
pub mod shared_lods;
pub mod shared_marks;
pub mod shared_views;
pub mod sorting;
pub mod spatial_lock;
pub mod stale_laws;
pub mod stream_laws;
pub mod transaction;
pub mod transaction_laws;
pub mod transaction_preview;
pub mod voxel_buffer;
pub mod voxel_data;
pub mod voxel_data_block;
pub mod voxel_data_lods;
pub mod voxel_data_map;
pub mod voxel_edit;
pub mod voxel_format;
pub mod voxel_laws;
pub mod voxel_memory_pool;

pub use channel::{Allocator, ChannelData, ChannelId, Compression};
pub use depth::ChannelDepth;
pub use generator::{SharedVoxelGenerator, SharedVoxelStream};
pub use mutation_error::SharedVoxelDataMutationError;
pub use revision::VoxelDataKeyRevision;
pub use shared_data::{SharedVoxelData, SharedVoxelDataLodReadGuard};
pub use voxel_buffer::{Channel, VoxelBuffer};
pub use voxel_data::{BlockLocation, BlockToSave, VoxelData, VoxelDataLodResizeError};
pub use voxel_data_block::{Viewers, VoxelDataBlock};
pub use voxel_data_map::VoxelDataMap;
pub use voxel_format::VoxelFormat;
pub use voxel_memory_pool::VoxelMemoryPool;
