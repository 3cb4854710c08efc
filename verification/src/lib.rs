//! Svelte-inspired server-side Lua templating: parsing, transformation and Lua code generation.

pub mod text;
pub mod patterns;
pub mod ast;
pub mod error;
pub mod collections;
pub mod transform;
pub mod script_processor;
pub mod parser;
pub mod sourcemap;
pub mod progress;
pub mod codegen;
pub mod compile;
pub mod request;
pub mod paths;
pub mod router;
pub mod resolver;
pub mod memory_resolver;
pub mod enhanced_parser;
pub mod cache;
pub mod dependencies;
pub mod kv;
pub mod response;
pub mod actions;
pub mod body;
pub mod bundler;
pub mod runtime;
pub mod dispatch;
