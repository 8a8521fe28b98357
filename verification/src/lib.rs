//! The verified core of a docking layout: where tabs live, how a dock addresses them across
//! edits, what a frame asks to change, in which order those requests are carried out and what
//! each does to the dock; how a row is cut into runs and where it draws its dividers; where
//! separators meet, and how a split is regrouped around a crossing.
//!
//! Drawing (rectangles, colours, pointer geometry) is done with floating point and through the
//! GUI toolkit; it stays outside this crate. What is here is the part that decides.

pub mod address;
pub mod leaf;
pub mod node;
pub mod dock_state;
pub mod drag;
pub mod events;
pub mod mutation;
pub mod tab_gesture;
pub mod apply;
pub mod edit;
pub mod overlay;
pub mod modifiers;
pub mod junction;
pub mod cross_split;
pub mod regroup;
pub mod row;
pub mod window;

pub use address::{
    AllowedSplits, GapPath, NodeId, NodePath, Split, SurfaceIndex, TabId, TabIndex, TabInsert, TabPath,
};
