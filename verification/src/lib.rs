//! A scene compositor: primitives of several kinds, each kind kept in its own
//! draw-order-sorted sequence, are partitioned into the minimal number of
//! homogeneous contiguous batches that reproduce the global paint order.

pub mod capacity;
pub mod color;
pub mod compositor;
pub mod geometry;
pub mod properties;
pub mod scene;

pub use color::Hsla;
pub use compositor::Batch;
pub use compositor::BatchIterator;
pub use compositor::DrawOrder;
pub use compositor::KIND_COUNT;
pub use compositor::PrimitiveKind;
pub use geometry::Bounds;
pub use geometry::Corners;
pub use geometry::Edges;
pub use geometry::Point;
pub use geometry::Size;
pub use scene::MonochromeSprite;
pub use scene::Primitive;
pub use scene::Quad;
pub use scene::Scene;
