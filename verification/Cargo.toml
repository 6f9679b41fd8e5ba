[package]
name = "argon_refs"
version = "0.1.0"
edition = "2021"
publish = false

[dependencies]
ahash = "=0.8.12"
crossbeam-channel = "=0.5.17"
log = "=0.4.35"
notify = "=6.1.1"
notify-debouncer-full = "=0.3.2"
rbx_dom_weak = "=4.2.0"
ustr = "=1.1.0"
