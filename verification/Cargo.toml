[package]
name = "field_layout"
version = "0.1.0"
edition = "2021"
publish = false

[dependencies]
unicode-width = "0.2"
ratatui = "0.29"
rusqlite = "0.32"
glob = "0.3"
strum_macros = "0.26"

[dev-dependencies]
textwrap = "0.16"
