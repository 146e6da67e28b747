[package]
name = "compensated_summation"
version = "0.1.0"
edition = "2021"
publish = false

[dev-dependencies]
rand = "=0.8.8"
rand_distr = "=0.4.3"
rand_xoshiro = "=0.6.0"
