pub mod bijection;
pub mod bytes;
pub mod cache;
pub mod candidates;
pub mod cli;
pub mod cluster;
pub mod config;
pub mod detect;
pub mod editor;
pub mod encode;
pub mod fast_hash;
pub mod filtering;
pub mod findings;
pub mod index;
pub mod language;
pub mod lsp;
pub mod marks;
pub mod matching;
pub mod meaning;
pub mod model;
pub mod names;
pub mod navigation;
pub mod partition;
pub mod paths;
pub mod pending;
pub mod positions;
pub mod reach;
pub mod regions;
pub mod rescan;
pub mod server;
pub mod service;
pub mod shapes;
pub mod sort;
pub mod spans;
pub mod syntax;
pub mod text;
pub mod tokenize;
pub mod units;
pub mod upkeep;
pub mod windows;
