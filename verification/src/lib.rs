//! Bookkeeping for GPU-resident skeletons, the meshes they deform and the
//! regions of the shared vertex buffer that both occupy.
//!
//! A skeleton and a mesh are named by counted handles ([`handle`]) and
//! stored in dense registries ([`registry`]) until a sweep finds that no
//! copy of the handle is left. The mesh manager ([`mesh`]) hands out ranges
//! of the vertex buffer ([`range_alloc`]); the skeleton manager
//! ([`skeleton`]) creates, updates and reclaims skeletons and keeps the
//! meshes' back-references and the buffer in agreement with what it stores
//! ([`coherence`]), also when the buffer is compacted ([`layout`]).
//!
//! Beside these stand the store of shader sources with the rules of
//! `include` ([`shader`]) and the choice of a shader source by renderer
//! mode ([`mode`]).

pub mod coherence;
pub mod handle;
pub mod layout;
pub mod mesh;
pub mod mode;
pub mod range_alloc;
pub mod registry;
pub mod shader;
pub mod skeleton;
pub mod types;
