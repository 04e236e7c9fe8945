//! The names that a caller needs, in one place.

pub use crate::color::Color;
pub use crate::frame::RenderError;
pub use crate::lighting::Light;
pub use crate::order::row_major_order;
pub use crate::order::Shaded;
pub use crate::ppm::encode;
pub use crate::ppm::Rgb;
pub use crate::scene::nearest;
pub use crate::scene::Intersection;
pub use crate::scene::Scene;
