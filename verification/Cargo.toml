[package]
name = "polycalc"
version = "0.1.0"
edition = "2021"
publish = false

[dependencies]
num = "0.4"
num-integer = "0.1"
pest = "2"
pest_derive = "2"
