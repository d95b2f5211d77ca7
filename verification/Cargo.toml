[package]
name = "affected"
version = "0.1.0"
edition = "2021"
publish = false

[dependencies]
oxc_allocator = "=0.139.0"
oxc_ast = "=0.139.0"
oxc_ast_visit = "=0.139.0"
oxc_diagnostics = "=0.139.0"
oxc_parser = "=0.139.0"
oxc_resolver = "=11.24.3"
oxc_span = "=0.139.0"
