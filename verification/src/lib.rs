//! A freehand-drawing surface: strokes are captured incrementally as
//! polylines, rendered on demand, and erased by sweeping a segment across
//! the canvas and deleting every committed curve it intersects.

pub mod canvas;
pub mod curve;
pub mod geometry;
pub mod intersect;

pub use canvas::AlreadyExists;
pub use canvas::Canvas;
pub use canvas::DoesntExist;
pub use curve::Curve;
pub use intersect::segments_intersect;
pub use geometry::Box;
pub use geometry::Rectangle;
pub use geometry::Point;
