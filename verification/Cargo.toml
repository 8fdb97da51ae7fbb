[package]
name = "int_interval_stack"
version = "0.1.0"
edition = "2021"
publish = false

[dependencies]
int-interval = "0.9"
int-interval-set = "*"
rayon = "1"
