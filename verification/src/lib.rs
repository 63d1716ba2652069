//! Checking and safely updating dependency declarations in Python and
//! Node.js manifests: parsing each manifest format into a shared dependency
//! model, deciding which declarations are outdated and which can be
//! rewritten without changing their meaning, and rendering the rewritten
//! manifests while keeping everything else in place.

pub mod cli;
pub mod discovery;
pub mod laws;
pub mod lockfile;
pub mod manifest;
pub mod model;
pub mod output;
pub mod package_json;
pub mod paths;
pub mod plan;
pub mod pyproject;
pub mod registry;
pub mod text;
pub mod toml_doc;
pub mod toml_render;
pub mod version;
