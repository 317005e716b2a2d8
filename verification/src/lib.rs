mod field;
mod path;
mod point;
mod search;

pub use field::{Field, FieldError, Tile};
pub use path::Path;
pub use point::Point;
