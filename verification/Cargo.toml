[package]
name = "npingler"
version = "0.1.0"
edition = "2021"
publish = false

[dependencies]
camino = "*"
clap = { version = "*", features = ["derive"] }
clap_complete = "*"
clap_mangen = "*"
command-error = "*"
diff-trees = "*"
fs-err = "*"
gethostname = "*"
miette = "*"
owo-colors = "*"
rustc-hash = "*"
serde = { version = "*", features = ["derive"] }
serde_json = "*"
shell-words = "*"
shellexpand = "*"
similar = "*"
thiserror = "*"
toml = "*"
utf8-command = "*"
which = "*"
xdg = "*"
