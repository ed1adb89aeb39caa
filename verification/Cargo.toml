[package]
name = "mixrust"
version = "0.1.0"
edition = "2021"
publish = false

[dependencies]
cairo-rs = "0.9"
gdk = "0.13"
glib = "0.10"
gtk = "0.9"
hound = "3"
rodio = "0.17"
