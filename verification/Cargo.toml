[package]
name = "symbol_liveness"
version = "0.1.0"
edition = "2021"
publish = false

[dependencies]
oxc_allocator = "=0.143.0"
oxc_ast = "=0.143.0"
oxc_ast_visit = "=0.143.0"
oxc_ecmascript = "=0.143.0"
oxc_index = "=5.0.0"
oxc_semantic = "=0.143.0"
oxc_span = "=0.143.0"
oxc_syntax = "=0.143.0"

[dev-dependencies]
oxc_parser = "=0.143.0"
