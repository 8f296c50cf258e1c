[package]
name = "orbitalz"
version = "0.1.0"
edition = "2021"
publish = false

[dependencies]
image = { version = "=0.24.9", default-features = false, features = ["png", "jpeg", "gif", "bmp"] }
# Named for its feature alone: it leaves only the portable code in the JPEG
# decoder that `image` uses, so that a file decodes to the same samples on
# every machine.
jpeg-decoder = { version = "=0.3.2", default-features = false, features = ["platform_independent"] }
rand = "=0.8.8"
teloxide = { version = "=0.9.2", features = ["macros", "webhooks-axum"] }
# Named for its version alone: teloxide uses it, and 0.1.2 asks for a newer
# compiler than the one this crate is built with.
takecell = "=0.1.1"
tokio = { version = "=1.54.1", features = ["rt-multi-thread", "macros", "fs"] }
dotenv = "=0.15.0"
eyre = "=0.6.14"
log = "=0.4.34"
pretty_env_logger = "=0.4.0"
rust-s3 = "=0.31.0"
