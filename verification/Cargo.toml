[package]
name = "sneakattackproto"
version = "0.1.0"
edition = "2021"
publish = false

[dependencies]
axum = "*"
axum-extra = { version = "*", features = ["query"] }
regex = "*"
reqwest = { version = "*", default-features = false, features = ["blocking", "json"] }
rust_xlsxwriter = "*"
serde = { version = "*", features = ["derive"] }
serde_json = "*"
tokio = { version = "*", features = ["macros", "rt-multi-thread", "net"] }
tower-http = { version = "*", features = ["fs"] }
