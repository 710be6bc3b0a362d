//! Run configuration: input sources, dataset and category definitions,
//! tile output range, and the query server port.
//!
//! These are plain data carriers. Reading them from a configuration file is
//! the caller's concern; file paths are held as strings.

use vstd::prelude::*;

verus! {

/// The whole run configuration.
#[derive(Clone, Debug)]
pub struct AppConfig {
    pub input: InputConfig,
    pub processing: ProcessingConfig,
    pub output: OutputConfig,
    pub server: ServerConfig,
}

/// Where the tabular and geometry sources live and which columns join them.
#[derive(Clone, Debug)]
pub struct InputConfig {
    pub shapefile: String,
    pub data_csv: String,
    pub join_column_shape: String,
    pub join_column_csv: String,
    pub water_mask: Option<String>,
}

/// The datasets to build, each under its output name.
#[derive(Clone, Debug)]
pub struct ProcessingConfig {
    pub datasets: Vec<(String, DatasetConfig)>,
}

/// One dataset: its categories and, optionally, where its not-stated count
/// comes from.
#[derive(Clone, Debug)]
pub struct DatasetConfig {
    pub categories: Vec<CategoryConfig>,
    pub not_stated: Option<NotStatedConfig>,
}

/// One category: its display name, its colour as a hex code, and the
/// tabular columns summed into its count.
#[derive(Clone, Debug)]
pub struct CategoryConfig {
    pub name: String,
    pub color: String,
    pub columns: Vec<String>,
}

/// The tabular column holding a dataset's not-stated count.
#[derive(Clone, Debug)]
pub struct NotStatedConfig {
    pub column: String,
}

/// Where tiles are written and for which zoom range.
#[derive(Clone, Debug)]
pub struct OutputConfig {
    pub tile_dir: String,
    pub min_zoom: u8,
    pub max_zoom: u8,
}

/// The query server's listening port.
#[derive(Clone, Debug)]
pub struct ServerConfig {
    pub port: u16,
}

} // verus!
