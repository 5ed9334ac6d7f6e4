//! Simplification of mixed boolean-arithmetic (MBA) expressions.
pub mod varint;
pub mod bimap;
pub mod text;
pub mod names;
pub mod parser;
pub mod variables;
pub mod program;
pub mod program_laws;
pub mod operators;
pub mod expr;
pub mod sampler;
pub mod expr_tables;
pub mod product;
pub mod order;
pub mod canonical;
pub mod canonical_laws;
pub mod canonical_value;
pub mod graph_compile;
pub mod one_base_compile;
pub mod prettify;
pub mod prettify_sound;
pub mod prettify_laws;
pub mod candidate;
pub mod install_value;
pub mod semantics;
pub mod numbering;
pub mod partition;
pub mod simplify;
pub mod lambda;
pub mod p8;
pub mod cache;
pub mod render;
pub mod render_laws;
pub mod minimal;
pub mod factorized_section;
pub mod section_value;
pub mod graph_value;
pub mod linear_add;
pub mod one_base;
pub mod one_base_sound;
pub mod fsc_frontend;
pub mod source_analysis;
pub mod stationary;
