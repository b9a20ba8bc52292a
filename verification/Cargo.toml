[package]
name = "bivrost"
version = "0.1.0"
edition = "2021"
publish = false

[dependencies]
clap = "2"
codepage-437 = "0.1"
docopt = "1"
serde = { version = "1", features = ["derive"] }
serde_derive = "1"
winapi = { version = "0.3", features = ["handleapi", "processthreadsapi", "winnt", "minwindef"] }
