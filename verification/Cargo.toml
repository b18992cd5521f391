[package]
name = "gen_cpp_units"
version = "0.1.0"
edition = "2021"
publish = false
