[package]
name = "gradido_blockchain_zk"
version = "0.1.0"
edition = "2021"
publish = false

[dependencies]
bech32 = "=0.11.1"
blake2b_simd = "=1.0.5"
bridgetree = "=0.8.0"
chacha20poly1305 = "=0.10.1"
f4jumble = "=0.1.2"
ff = "=0.13.1"
group = "=0.13.0"
halo2_gadgets = { version = "=0.5.0", features = ["test-dependencies"] }
halo2_proofs = "=0.3.5"
incrementalmerkletree = "=0.9.0"
js-sys = "=0.3.107"
pasta_curves = "=0.5.2"
rand = "=0.8.8"
reddsa = "=0.5.2"
wasm-bindgen = "=0.2.130"
zcash_note_encryption = "=0.4.2"

[dev-dependencies]
prost = { version = "0.13", default-features = false, features = ["std"] }

[lints.rust]
unexpected_cfgs = "allow"
