[package]
name = "scenario_tree"
version = "0.1.0"
edition = "2021"
publish = false

[dependencies]
gtk4 = "0.6"
gdk4 = "0.6"
glib = "0.17"
