[package]
name = "pulpit-render"
version = "0.1.0"
edition = "2021"
publish = false

[dependencies]
cbc = { version = "=0.2.1", features = ["alloc", "block-padding"] }
cms = "=0.2.3"
der = { version = "=0.7.10", features = ["alloc", "derive", "oid", "std"] }
des = "=0.9.0"
ed25519-dalek = { version = "=2.2.0", features = ["pkcs8"] }
flate2 = "=1.1.10"
hex = "=0.4.3"
image = { version = "=0.25.10", default-features = false, features = ["bmp", "gif", "ico", "jpeg", "png", "pnm", "qoi", "tga", "tiff", "webp"] }
memmap2 = "=0.9.12"
p12-keystore = "=0.4.1"
p256 = { version = "=0.13.2", features = ["ecdsa", "pkcs8"] }
p384 = { version = "=0.13.1", features = ["ecdsa", "pkcs8"] }
pdfium-render = "=0.8.37"
pkcs12 = { version = "=0.2.0-pre.0", features = ["kdf"] }
pkcs5 = { version = "=0.8.1", features = ["alloc", "pbes2"] }
pkcs8 = { version = "=0.10.2", features = ["alloc"] }
rand = "=0.8.8"
rc2 = "=0.9.0"
rsa = { version = "=0.9.10", features = ["sha2"] }
serde = { version = "=1.0.229", features = ["derive"] }
serde_json = "=1.0.154"
sha1 = "=0.11.0"
sha2 = "=0.10.9"
signature = "=2.2.0"
spki = { version = "=0.7.3", features = ["alloc"] }
tar = "=0.4.46"
thiserror = "=1.0.69"
x509-cert = { version = "=0.2.5", features = ["builder"] }
zip = { version = "=2.6.1", default-features = false, features = ["deflate"] }
