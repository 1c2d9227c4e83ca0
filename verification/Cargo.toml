[package]
name = "boggle"
version = "0.1.0"
edition = "2021"
publish = false

[dependencies]
rand = "0.7"
stoppable_thread = "0.2"
tokio = { version = "1", features = ["full"] }
