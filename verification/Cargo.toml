[package]
name = "nt_tools"
version = "0.1.0"
edition = "2021"
publish = false

[dependencies]
num-bigint = { version = "0.4", features = ["rand"] }
num-integer = "0.1"
num-iter = "0.1"
num-traits = "0.2"
rand = "0.8"
rayon = "1"
dpc-pariter = "*"
fmtastic = "*"
clap = { version = "4", features = ["derive"] }
serde = { version = "1", features = ["derive"] }
serde_json = "1"
tabled = "*"
table_to_html = "*"
json_to_table = "*"
homedir = "*"
shlex = "*"
