[package]
name = "comment_weave"
version = "0.1.0"
edition = "2021"
publish = false

[dependencies]
oxc_allocator = "=0.145.0"
oxc_ast = "=0.145.0"
oxc_span = "=0.145.0"
oxc_syntax = "=0.145.0"
rustc-hash = "=2.1.3"
smallvec = "=1.16.4"
