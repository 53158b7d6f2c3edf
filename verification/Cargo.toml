[package]
name = "gh_labeler"
version = "0.1.0"
edition = "2021"
publish = false

[dependencies]
octocrab = "0.38"
tokio = { version = "*", features = ["macros", "rt-multi-thread"] }
clap = { version = "*", features = ["derive"] }
colored = "*"
serde = { version = "*", features = ["derive"] }
serde_json = "*"
serde_yaml = "*"
thiserror = "*"
chrono = "*"
reqwest = { version = "*", default-features = false }
