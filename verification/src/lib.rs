//! Mesh preparation for GPU consumption and storage.
//!
//! Triangle meshes are reordered for the caches of a GPU and packed into
//! compact streams:
//!
//! - [`vertex_cache`] orders triangles for the cache of transformed vertices,
//!   by the two orders of [`score_order`] and [`fan_order`]; [`overdraw`]
//!   orders clusters of triangles against overdraw, and [`vertex_fetch`]
//!   orders the vertices themselves. [`reorder`] holds what all reorderings
//!   have in common, [`adjacency`] which corners name which vertex.
//! - [`index_codec`] and [`vertex_codec`] turn index and vertex buffers into
//!   bytes and back; [`index_laws`] and [`vertex_laws`] state what holds of
//!   every stream, [`index_model`], [`index_step_laws`], [`fifo`], [`varint`],
//!   [`vertex_group`] and [`vertex_plane`] are their parts.
//! - [`analyze`] measures an order on simulated caches.
//! - [`indices`], [`stream`], [`packing`], [`quantize`] and [`clusterize`]
//!   hold index streams, views of vertex data, packed vertex layouts,
//!   quantization and meshlets.
//!
//! Everything works on integers and bytes. Floats appear as bit patterns
//! only.

pub mod adjacency;
pub mod analyze;
pub mod clusterize;
pub mod error;
pub mod fan_order;
pub mod fifo;
pub mod index_codec;
pub mod index_laws;
pub mod index_model;
pub mod index_step_laws;
pub mod indices;
pub mod overdraw;
pub mod packing;
pub mod quantize;
pub mod reorder;
pub mod score_order;
pub mod stream;
pub mod varint;
pub mod vertex_cache;
pub mod vertex_codec;
pub mod vertex_fetch;
pub mod vertex_group;
pub mod vertex_laws;
pub mod vertex_plane;

pub use crate::analyze::{
    analyze_vertex_cache, analyze_vertex_fetch, VertexCacheStatistics, VertexFetchStatistics,
};
pub use crate::clusterize::{meshlet_extent, Meshlet, MeshletRange, Meshlets};
pub use crate::error::Error;
pub use crate::index_codec::{
    decode_index_buffer, decode_index_buffer_sized, decode_index_buffer_u16, encode_index_buffer,
    encode_index_buffer_bound,
};
pub use crate::indices::{
    convert_indices_16_to_32, convert_indices_32_to_16, is_valid_index_stream,
};
pub use crate::overdraw::{overdraw_clusters, reorder_clusters};
pub use crate::packing::{Object, PackedVertex, PackedVertexOct};
pub use crate::quantize::{dequantize_half_bits, quantize_float_bits, quantize_half_bits};
pub use crate::stream::{VertexDataAdapter, VertexStream};
pub use crate::vertex_cache::{
    optimize_vertex_cache, optimize_vertex_cache_fifo, optimize_vertex_cache_fifo_in_place,
    optimize_vertex_cache_in_place,
};
pub use crate::vertex_codec::{
    decode_vertex_buffer, encode_vertex_buffer, encode_vertex_buffer_bound,
};
pub use crate::vertex_fetch::{
    optimize_vertex_fetch, optimize_vertex_fetch_in_place, optimize_vertex_fetch_remap,
    remap_index_buffer, remap_vertex_buffer, remap_vertex_count,
};
