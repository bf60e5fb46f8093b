[package]
name = "statedb"
version = "0.1.0"
edition = "2021"
publish = false

[dependencies]
borsh = "=1.8.1"
data-encoding = "=2.11.1"
regex = "=1.13.1"
rlimit = "=0.11.0"
