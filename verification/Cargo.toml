[package]
name = "detc"
version = "0.1.0"
edition = "2021"
publish = false

[dependencies]
anstyle = "1"
base64 = "0.22"
clap = { version = "4", features = ["derive"] }
env_logger = "0.11"
gix = { version = "*", default-features = false, features = ["tree-editor", "revision", "sha1"] }
glob = "0.3"
indicatif = "*"
jiff = "0.2"
json-patch = "*"
log = "0.4"
minijinja = { version = "2", features = ["debug"] }
sd-notify = "*"
serde = { version = "1", features = ["derive"] }
serde_json = "1"
serde_yaml_ng = "0.10"
sha2 = "*"
ssh-key = { version = "*", features = ["ed25519"] }
tar = { version = "0.4", default-features = false }
tempfile = "3"
toml = "*"
ureq = "3"
walkdir = "2"
