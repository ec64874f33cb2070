//! Placement of k stations among resource nodes of a game map: a k-median
//! clustering of 2D points with a deterministic step-halving median search.

pub mod config;
pub mod driver;
pub mod geometry;
pub mod map;
pub mod median;
pub mod partition;
mod random;

pub use driver::{assignment_error, Driver, Status};
pub use config::{check_config, points_in_range, Bounds, Config, ConfigError};
pub use geometry::{distance, Point, COORD_LIMIT, DIST_SCALE};
pub use map::{marker_points, MapData, ResourceCategory, ResourceLayer, ResourceMarker, Resources};
pub use median::find_median;
pub use partition::{nearest_center, partition};
