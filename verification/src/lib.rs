//! Disk usage scanning and cushion-treemap rendering, with the logic proved.
//!
//! The engine behind `diskscope`: directory records, the flat tree they become,
//! file kinds, rollups, the pixel bookkeeping of the map and the state of the
//! window. Nothing here touches the disk, the screen or a clock; what does
//! lives in the program around the library.

pub mod actions;
pub mod app;
pub mod bmp;
pub mod canvas;
pub mod double;
pub mod fmt;
pub mod kinds;
pub mod laws;
pub mod paths;
pub mod raster;
pub mod report;
pub mod scan;
pub mod sidebar;
pub mod sort;
pub mod summary;
pub mod sums;
pub mod text;
pub mod theme;
pub mod tree;
pub mod treemap;
