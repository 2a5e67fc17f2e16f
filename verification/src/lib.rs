//! Building information model core: a generational arena, the cell complex
//! of a building (vertices, edges, faces, cells), its construction set, and
//! the joint planner that decides how the layers of faces meeting at an edge
//! are joined.
pub mod base_types;
pub mod arena;
pub mod id_list;
pub mod text;
pub mod topology;
pub mod construction;
pub mod building;
pub mod joint_corners;
