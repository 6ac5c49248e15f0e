[package]
name = "filetree"
version = "0.1.0"
edition = "2021"
publish = false

[dependencies]
anyhow = "1"
crossterm = "0.25"
duct = "0.13"
easy_switch = "*"
log = "0.4"
tui = "0.19"
tui-logger = "0.8"
tui-tree-widget = "0.11"
