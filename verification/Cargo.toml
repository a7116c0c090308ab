[package]
name = "prediction_markets"
version = "0.1.0"
edition = "2021"
publish = false

[dependencies]
sp-runtime = "=2.0.1"
sp-core = "=2.0.1"
# Held at 0.4.2: later 0.4 releases ask for a schnorrkel that sp-core 2.0.1
# does not compile against.
substrate-bip39 = "=0.4.2"
