//! The layout core of a tiling compositor: a binary tree that divides a
//! rectangle among windows, and a window manager that keeps one such tree per
//! workspace together with the order in which the windows were last used.

pub mod keys;
pub mod layout;
pub mod mru;
pub mod outputs;
pub mod shape;
pub mod tree;
pub mod types;
pub mod window_manager;
