[package]
name = "zet"
version = "0.2.6"
edition = "2021"
publish = false

[dependencies]
anstyle = "1"
anyhow = "1"
bstr = "1"
clap = { version = "4", features = ["derive"] }
enable-ansi-support = "0.2"
encoding_rs = "0.8"
encoding_rs_io = "0.1"
fxhash = "0.2"
indexmap = "2"
is-terminal = "0.4"
memchr = "2"
once_cell = "1"
supports-color = "2"
terminal_size = "0.3"
textwrap = "0.16"
