[package]
name = "rollup_host"
version = "0.1.0"
edition = "2021"
publish = false

[dependencies]
dlmalloc = { version = "0.2", features = ["global"] }
hex = "=0.4.3"
nom = "=7.1.3"
num-bigint = "=0.3.3"
num-traits = "=0.2.19"
primitive-types = "=0.14.0"
rlp = "=0.6.1"
tezos_crypto_rs = "=0.5.2"
tezos_data_encoding = "=0.5.2"
tezos-smart-rollup-core = "=0.2.2"
tezos-smart-rollup-host = "=0.2.2"
tezos-smart-rollup-panic-hook = "=0.2.2"
thiserror = "=1.0.69"
