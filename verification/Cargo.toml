[package]
name = "rockscript"
version = "0.1.0"
edition = "2021"
publish = false

[dependencies]
ariadne = "=0.6.0"
clap = { version = "=4.6.7", features = ["derive"] }
directories = "=6.0.0"
rustyline = { version = "=19.0.0", features = ["derive"] }
tokio = { version = "=1.54.1", features = ["sync"] }
tower-lsp-server = "=0.23.0"
