[package]
name = "angle_grinder"
version = "0.1.0"
edition = "2021"
publish = false

[dependencies]
ord_subset = "=3.1.2"
quantiles = "=0.7.1"
# Without the perf features there is one engine, the simulation of the automaton: a search does
# not go by literals or by a reversed automaton first.
regex = { version = "=1.12.4", default-features = false, features = ["std", "unicode"] }
regex-syntax = "=0.3.9"
serde_json = "=1.0.154"
