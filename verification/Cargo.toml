[package]
name = "cairo_block_builder"
version = "0.1.0"
edition = "2021"
publish = false

[dependencies]
cairo-lang-debug = "=2.11.4"
cairo-lang-defs = "=2.11.4"
cairo-lang-diagnostics = "=2.11.4"
cairo-lang-semantic = "=2.11.4"
cairo-lang-sierra = "=2.11.4"
cairo-lang-syntax = "=2.11.4"
cairo-lang-utils = "=2.11.4"
indent = "=0.1.1"
itertools = "=0.14.0"
# The numbers among the generic arguments of Sierra types are of this crate.
num-bigint = "=0.4.8"
# Not called here: later versions of it do not build with cairo-lang-sierra.
starknet-types-core = "=0.1.7"
