//! Verified core of a floorplan-to-3D reconstruction service: project
//! states and their lifecycle, raster wall detection on pixel grids, mesh
//! topology planning, photo swatches, and GLB binary framing.

pub mod status;
pub mod error;
pub mod text;
pub mod glb;
pub mod lifecycle;
pub mod raster;
pub mod lines;
pub mod projection;
pub mod meshplan;
pub mod texture;
pub mod draw;
pub mod floorplan;
pub mod backend;
pub mod blobs;

pub mod structural;
pub mod naming;
