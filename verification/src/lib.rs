//! The logic of a vector-tile map: the space-filling curve its files are
//! ordered by, the formats it reads and writes, the geometry it assembles and
//! the decisions its tools and its server take.

pub mod answer;
pub mod archive;
pub mod bake;
pub mod builds;
pub mod bytes;
pub mod command;
pub mod config;
pub mod cut;
pub mod directory;
pub mod download;
pub mod export;
pub mod extract;
pub mod grid;
pub mod hilbert;
pub mod info;
pub mod leaves;
pub mod load;
pub mod names;
pub mod nesting;
pub mod pipeline;
pub mod progress;
pub mod query;
pub mod rings;
pub mod rows;
pub mod scan;
pub mod serve;
pub mod sort;
pub mod text;
pub mod tuning;
pub mod wkb;
pub mod zones;
