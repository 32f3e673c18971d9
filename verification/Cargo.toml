[package]
name = "manta"
version = "0.1.0"
edition = "2021"
publish = false

[dependencies]
clap = "4"
comfy-table = "7"
directories = "5"
log = "0.4"
log4rs = { version = "1", default-features = false, features = ["console_appender", "pattern_encoder"] }
serde = { version = "1", features = ["derive"] }
serde_json = "1"
strum = "0.25"
strum_macros = "0.25"
termion = "2"
tokio = { version = "1", features = ["macros", "rt-multi-thread", "sync"] }
