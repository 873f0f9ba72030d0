//! Conference scheduling: conflict detection between minisymposia, grouping of
//! contributed lectures, and a ranked (hierarchical) schedule optimizer.
pub mod text;
pub mod conflict_detection;
pub mod model;
pub mod counts;
pub mod moves;
pub mod initial;
pub mod preprocess;
pub mod optimize;
pub mod series;
pub mod analysis;
pub mod feasibility;
pub mod laws;
pub mod sheets;
pub mod topics;
pub mod validate;
pub mod layout;
pub mod page;
pub mod period_check;
pub mod lower_bounds;
