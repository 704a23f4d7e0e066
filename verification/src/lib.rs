pub mod text;
pub mod order;
pub mod strmap;
pub mod paths;
pub mod glob;
pub mod config;
pub mod error;
pub mod markdown_table;
pub mod model;
pub mod source;
pub mod cli;
pub mod cache;
pub mod baseline;
pub mod mermaid;
pub mod packages;
pub mod projection;
pub mod snapshot;
pub mod provider;
pub mod graph;
pub mod rules;
pub mod evidence;
pub mod mapping;
pub mod render;
pub mod http;
pub mod vcs;
pub mod discovery;
pub mod repository;
pub mod suggest;
pub mod report;
pub mod layers;
pub mod compiler;
pub mod context;
pub mod extraction;
pub mod context_text;
pub mod css;
pub mod syntax;
pub mod imports;
pub mod observations;
pub mod script;
