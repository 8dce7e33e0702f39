pub mod text;
pub mod version;
pub mod name_map;
pub mod index;
pub mod config;
pub mod sorting;
pub mod lockfile;
pub mod crandb;
pub mod resolver;
pub mod cache;
pub mod toml_text;
