[package]
name = "embed_jsdoc"
version = "0.1.0"
edition = "2021"
publish = false

[dependencies]
oxc_allocator = "=0.143.0"
oxc_ast = "=0.143.0"
oxc_jsdoc = "=0.143.0"
oxc_span = "=0.143.0"
oxc_syntax = "=0.143.0"
rustc-hash = "=2.1.3"

[dev-dependencies]
oxc_ast_visit = "=0.143.0"
oxc_parser = "=0.143.0"
