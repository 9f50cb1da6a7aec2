//! Rendering configuration handed through to the chart backend.

use vstd::prelude::*;

verus! {

/// How to run or reach the PlantUML renderer.
#[derive(Debug)]
pub struct PlantUMLConfig {
    pub use_api: bool,
    pub api_url: String,
    pub local_cmd: String,
}

/// Colors for the resource-allocation footbox, one per day classification.
#[derive(Debug)]
pub struct Colors {
    pub worker_pub_holidays: String,
    pub worker_holidays: String,
    pub worker_other_duties: String,
    pub worker_overloaded: String,
    pub worker_underloaded: String,
    pub worker_fine: String,
    pub worker_unassigned: String,
    pub time_markers: String,
}

/// Backend settings: renderer and colors.
#[derive(Debug)]
pub struct BackendConfig {
    pub plantuml: PlantUMLConfig,
    pub colors: Colors,
}

/// Top-level configuration.
#[derive(Debug)]
pub struct Config {
    pub backend: BackendConfig,
}

} // verus!
