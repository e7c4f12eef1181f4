//! Cyclic focus-next / focus-previous selection among the windows of a
//! tiling window manager's workspace. The layout tree is a snapshot of the
//! manager's scene graph; the selector walks it depth-first and returns the
//! window that should receive focus, wrapping at the workspace's ends.

pub mod laws;
pub mod selector;
pub mod tree;
