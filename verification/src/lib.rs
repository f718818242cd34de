pub mod clustering;
pub mod dbscan;
mod expansion;
pub mod kdtree;
pub mod nearest;
pub mod range;
