pub mod geometry;
pub mod handoff;
pub mod session;
pub mod split;
pub mod tabs;
pub mod windows;
