[package]
name = "pprofessor"
version = "0.1.0"
edition = "2021"
publish = false

[dependencies]
addr2line = "*"
anyhow = "*"
bytes = "*"
clap = { version = "4", features = ["derive"] }
flate2 = "*"
gimli = "*"
libc = "*"
mach2 = "*"
memmap2 = "*"
nix = { version = "*", features = ["signal"] }
object = "*"
serde = { version = "1", features = ["derive"] }
serde_json = "1"
symbolic-demangle = "*"
uuid = { version = "1", features = ["v4"] }
