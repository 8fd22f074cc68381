[package]
name = "pomdp_planner"
version = "0.1.0"
edition = "2021"

[dependencies]
good_lp = { version = "*", default-features = false, features = ["microlp"] }
