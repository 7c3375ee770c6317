[package]
name = "ebook_meta_editor"
version = "0.1.0"
edition = "2021"
publish = false

[dependencies]
zip = "*"
epub = "*"
ratatui = "*"
crossterm = "*"
tui-widget-list = "*"
