//! Verified core of the Risen 1 asset pipeline: the `.pak` container format, the `._ximg`
//! texture wrapper, template/actor/motion scanners and the small text rules the tools share.

pub mod ai;
pub mod batch;
pub mod content;
pub mod dds;
pub mod ddscontainer;
pub mod embedproof;
pub mod ddsproof;
pub mod gamepath;
pub mod le;
pub mod logic;
pub mod manifestproof;
pub mod mergeproof;
pub mod order;
pub mod pak;
pub mod pakwrite;
pub mod remote;
pub mod pakmerge;
pub mod pakproof;
pub mod patchplan;
pub mod text;
pub mod texture;
pub mod tple;
pub mod xmac;
pub mod xmesh_skin;
pub mod xmot;
pub mod ximg;
pub mod ximgproof;
pub mod zlib;
