[package]
name = "rpn_calculator"
version = "0.1.0"
edition = "2021"
publish = false

[dependencies]
rustc_apfloat = "*"
fltk = "1"
log = "0.4"
simple_logger = "*"
