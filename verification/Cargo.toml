[package]
name = "branchless"
version = "0.1.0"
edition = "2021"
publish = false

[dependencies]
anyhow = "*"
console = "*"
fn-error-context = "*"
itertools = "*"
log = "*"
os_str_bytes = "*"
