//! A 2D scene graph: sprites in an owned tree, addressed by id, with nested
//! transforms for drawing, and a scheduler that advances behaviors against
//! sprites once per update.

pub mod scene;
pub mod sprite;
pub mod transform;
