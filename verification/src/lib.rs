//! A verified model of a live tree of UI nodes.
//!
//! Scoped nodes own their children and their lifetime-scoped resources;
//! every structural edit is mirrored onto a rendering-surface model in the
//! same step, and releasing a node cascades teardown through its subtree.
//!
//! The crate models its external collaborators — the rendering surface, the
//! event-subscription service, the size-observation service and the
//! cooperative scheduler — at their interface boundary: the surface as an
//! explicit element arena kept in lockstep with the tree, the services as
//! registries whose decisions (should a callback fire, what must be torn
//! down) are computed here; an embedder performs the actual platform calls.

pub mod surface;
pub mod own;
pub mod el;
pub mod resize;
pub mod spawn;
pub mod container;
pub mod root;
